//! What holds of the reconstruction, whatever the records are.

use vstd::prelude::*;
use crate::replay::{
    awaiting, lemma_awaiting_push, lemma_awaiting_without, lemma_split_queue, needs, topmost,
    without, Replay, ThreadTime,
};
use crate::row::RowModel;
use crate::span::{intervals_total, SpanId};
use crate::store::StoreModel;

verus! {

impl StoreModel {
    /// Whether `later` holds every span of this store under its id, with the
    /// name, target, start, attributes and parent that it has here.
    pub open spec fn kept_by(self, later: StoreModel) -> bool {
        &&& self.spans.len() <= later.spans.len()
        &&& self.generation == later.generation
        &&& forall|i: int|
            0 <= i < self.spans.len() ==> {
                &&& (#[trigger] later.spans[i]).parent == self.spans[i].parent
                &&& later.spans[i].start == self.spans[i].start
                &&& later.spans[i].name == self.spans[i].name
                &&& later.spans[i].target == self.spans[i].target
                &&& later.spans[i].values == self.spans[i].values
            }
    }

    /// Whether this store and `other` hold the same spans, roots and events,
    /// in whatever generation each of them is.
    pub open spec fn same_contents(self, other: StoreModel) -> bool {
        &&& self.spans == other.spans
        &&& self.roots == other.roots
        &&& self.root_events == other.root_events
    }

    /// No span starts before its parent.
    pub open spec fn starts_ordered(self) -> bool {
        forall|i: int|
            0 <= i < self.spans.len() ==> ((#[trigger] self.spans[i]).parent matches Some(p)
                ==> self.spans[p as int].start <= self.spans[i].start)
    }
}

/// Taking the records that wait for `id` out of a queue in which none does
/// leaves the queue as it is.
pub proof fn lemma_without_nothing(queued: Seq<(u64, RowModel)>, id: u64)
    requires
        awaiting(queued, id).len() == 0,
    ensures
        without(queued, id) == queued,
    decreases queued.len(),
{
    if queued.len() > 0 {
        lemma_without_nothing(queued.drop_last(), id);
        assert(queued.drop_last().push(queued.last()) =~= queued);
    }
}

impl ThreadTime {
    /// The time at which an interval was last closed; the first enter,
    /// while none was.
    pub open spec fn last_close(self) -> u64 {
        if self.closed.len() == 0 {
            self.first_enter
        } else {
            self.closed.last().1
        }
    }

    /// The closed intervals add up to no more than the time from the first
    /// enter to the last close.
    pub open spec fn adds_up(self) -> bool {
        self.first_enter <= self.last_close() && intervals_total(self.closed) <= self.last_close()
            - self.first_enter
    }
}

impl Replay {
    /// Whether no start in `work`, and none that `work` wakes, is older than
    /// the span that it is started under.
    pub open spec fn in_start_order(self, work: Seq<RowModel>) -> bool
        decreases self.state.queued.len() + work.len(), work.len(),
    {
        if work.len() == 0 {
            true
        } else {
            proof {
                lemma_split_queue(self.state.queued, work[0]->Start_id);
            }
            self.starts_after_parent(work[0]) && self.step(work[0]).0.in_start_order(
                self.step(work[0]).1 + work.skip(1),
            )
        }
    }

    /// Whether `row`, if it is a start that is applied under a parent, is no
    /// older than that parent.
    pub open spec fn starts_after_parent(self, row: RowModel) -> bool {
        match row {
            RowModel::Start { ts, parent: Some(p), .. } => self.state.active_ids.contains_key(p)
                ==> self.store.spans[self.state.active_ids[p] as int].start <= ts,
            _ => true,
        }
    }

    /// One record leaves every span that is there in place: ids are given
    /// out in creation order and never taken back while the generation
    /// lasts.
    pub proof fn lemma_step_keeps_spans(self, row: RowModel)
        requires
            self.wf(),
            self.wakes(row) is Some ==> self.store.spans.len() < usize::MAX,
        ensures
            self.store.kept_by(self.step(row).0.store),
            self.wakes(row) is Some ==> self.step(row).0.store.spans.len() == self.store.spans.len()
                + 1 && self.step(row).0.state.active_ids[row->Start_id] == self.store.spans.len(),
            self.wakes(row) is None ==> self.step(row).0.store.spans.len()
                == self.store.spans.len(),
    {
        if self.waits_for(row) is None {
            self.lemma_apply_ready_wf(row);
            match row {
                RowModel::Enter { ts, id, thread_id } => {
                    let stack = self.state.stack_of(thread_id);
                    if stack.len() > 0 {
                        assert(stack.last() == self.state.thread_stacks[thread_id][stack.len() - 1]);
                    }
                },
                RowModel::Exit { ts, id, thread_id } => {},
                _ => {},
            }
        }
    }

    /// A run of records keeps the ids valid and leaves every span that is
    /// there in place.
    pub proof fn lemma_run_keeps_spans(self, work: Seq<RowModel>)
        requires
            self.wf(),
            self.has_room(work),
        ensures
            self.run(work).wf(),
            self.store.kept_by(self.run(work).store),
        decreases self.state.queued.len() + work.len(), work.len(),
    {
        if work.len() > 0 {
            self.lemma_step_wf(work[0]);
            self.lemma_step_keeps_spans(work[0]);
            let next = self.step(work[0]).0;
            next.lemma_run_keeps_spans(self.step(work[0]).1 + work.skip(1));
        }
    }

    /// While the producer id `id` is in use and no record waits for it, a
    /// run of records that holds no end leaves it in use, and leaves no
    /// record waiting for it.
    pub proof fn lemma_run_leaves_none_waiting(self, work: Seq<RowModel>, id: u64)
        requires
            self.wf(),
            self.has_room(work),
            self.state.active_ids.contains_key(id),
            awaiting(self.state.queued, id).len() == 0,
            forall|k: int| 0 <= k < work.len() ==> !(#[trigger] work[k] is End),
        ensures
            self.run(work).state.active_ids.contains_key(id),
            awaiting(self.run(work).state.queued, id).len() == 0,
        decreases self.state.queued.len() + work.len(), work.len(),
    {
        if work.len() > 0 {
            let row = work[0];
            let next = self.step(row).0;
            let woken = self.step(row).1;
            let rest = woken + work.skip(1);
            self.lemma_step_wf(row);
            assert(!(row is End));
            match self.waits_for(row) {
                Some(other) => {
                    lemma_awaiting_push(self.state.queued, other, row, id);
                },
                None => {
                    self.lemma_apply_ready_wf(row);
                    match self.wakes(row) {
                        Some(woke) => {
                            lemma_awaiting_without(self.apply(row).state.queued, woke, id);
                        },
                        None => {},
                    }
                },
            }
            assert forall|k: int| 0 <= k < rest.len() implies !(#[trigger] rest[k] is End) by {
                if k < woken.len() {
                    assert(needs(woken[k]) == self.wakes(row));
                } else {
                    assert(rest[k] == work[k - woken.len() + 1]);
                }
            }
            next.lemma_run_leaves_none_waiting(rest, id);
        }
    }

    /// A run of records that all need some producer id adds no root: what a
    /// start wakes is never a root.
    pub proof fn lemma_run_adds_no_root(self, work: Seq<RowModel>)
        requires
            self.wf(),
            self.has_room(work),
            forall|k: int| 0 <= k < work.len() ==> needs(#[trigger] work[k]) is Some,
        ensures
            self.run(work).store.roots == self.store.roots,
        decreases self.state.queued.len() + work.len(), work.len(),
    {
        if work.len() > 0 {
            let row = work[0];
            let woken = self.step(row).1;
            let rest = woken + work.skip(1);
            self.lemma_step_wf(row);
            assert(needs(row) is Some);
            if self.waits_for(row) is None {
                self.lemma_apply_ready_wf(row);
            }
            assert(self.step(row).0.store.roots == self.store.roots);
            assert forall|k: int| 0 <= k < rest.len() implies needs(#[trigger] rest[k]) is Some by {
                if k < woken.len() {
                    assert(needs(woken[k]) == self.wakes(row));
                } else {
                    assert(rest[k] == work[k - woken.len() + 1]);
                }
            }
            self.step(row).0.lemma_run_adds_no_root(rest);
        }
    }

    /// A start without a parent makes a root: the new span has no parent,
    /// and the list of roots grows by it and by nothing else.
    pub proof fn lemma_root_start(self, row: RowModel)
        requires
            self.wf(),
            self.has_room(seq![row]),
            row is Start,
            row->Start_parent is None,
        ensures
            self.process(row).store.roots == self.store.roots.push(self.store.spans.len() as usize),
            self.process(row).store.spans[self.store.spans.len() as int].parent is None,
            self.process(row).store.spans[self.store.spans.len() as int].name == row->Start_name,
            self.process(row).store.spans.len() > self.store.spans.len(),
    {
        let id = row->Start_id;
        let next = self.step(row).0;
        let woken = self.step(row).1;
        self.lemma_step_wf(row);
        self.lemma_step_keeps_spans(row);
        assert(seq![row].skip(1) =~= Seq::empty());
        assert(woken + Seq::<RowModel>::empty() =~= woken);
        assert(self.run(seq![row]) == next.run(woken));
        assert forall|k: int| 0 <= k < woken.len() implies needs(#[trigger] woken[k]) is Some by {
            assert(needs(woken[k]) == self.wakes(row));
        }
        next.lemma_run_adds_no_root(woken);
        next.lemma_run_keeps_spans(woken);
    }

    /// An exit takes the topmost occurrence of its span out of the thread's
    /// stack, wherever in the stack it is: the frames below and above stay
    /// in their order, and the frame that is now on top, if it is of another
    /// span, is charged from the time of the exit.
    pub proof fn lemma_exit_leaves_the_rest(self, row: RowModel)
        requires
            row is Exit,
            self.waits_for(row) is None,
            topmost(
                self.state.stack_of(row->Exit_thread_id),
                self.state.active_ids[row->Exit_id],
            ) is Some,
        ensures
            ({
                let thread = row->Exit_thread_id;
                let span = self.state.active_ids[row->Exit_id];
                let stack = self.state.stack_of(thread);
                let k = topmost(stack, span)->Some_0;
                let after = self.apply(row);
                &&& after.state.stack_of(thread) == stack.remove(k)
                &&& k > 0 && stack.remove(k).last() != span
                    ==> after.state.self_time_started.contains_key((stack.remove(k).last(), thread))
                    && after.state.self_time_started[(stack.remove(k).last(), thread)]
                    == row->Exit_ts
                &&& !after.state.self_time_started.contains_key((span, thread))
            }),
    {
    }

    /// A record that wakes no other does what its own step does, and no
    /// more.
    pub proof fn lemma_process_alone(self, row: RowModel)
        requires
            self.step(row).1.len() == 0,
        ensures
            self.process(row) == self.step(row).0,
    {
        assert(self.step(row).1 + seq![row].skip(1) =~= Seq::empty());
        assert(self.run(seq![row]) == self.step(row).0.run(Seq::empty()));
    }

    /// A start that is applied wakes the records that wait for its id: they
    /// are processed right after it, in the order in which they came, and
    /// none of them, nor any other record, waits for that id afterwards.
    pub proof fn lemma_start_wakes_in_order(self, row: RowModel)
        requires
            self.wf(),
            row is Start,
            self.waits_for(row) is None,
            self.has_room(seq![row]),
        ensures
            self.process(row) == self.apply(row).take_queue(row->Start_id).run(
                awaiting(self.state.queued, row->Start_id),
            ),
            self.process(row).state.active_ids.contains_key(row->Start_id),
            awaiting(self.process(row).state.queued, row->Start_id).len() == 0,
    {
        let id = row->Start_id;
        let woken = awaiting(self.state.queued, id);
        let next = self.apply(row).take_queue(id);
        self.lemma_apply_ready_wf(row);
        self.lemma_step_wf(row);
        assert(seq![row].skip(1) =~= Seq::empty());
        assert(woken + Seq::<RowModel>::empty() =~= woken);
        assert(self.step(row) == (next, woken));
        lemma_awaiting_without(self.state.queued, id, id);
        assert forall|k: int| 0 <= k < woken.len() implies !(#[trigger] woken[k] is End) by {
            assert(needs(woken[k]) == self.wakes(row));
        }
        next.lemma_run_leaves_none_waiting(woken, id);
    }

    /// One record that is no older than its parent leaves every span no
    /// older than its own.
    pub proof fn lemma_step_keeps_start_order(self, row: RowModel)
        requires
            self.wf(),
            self.wakes(row) is Some ==> self.store.spans.len() < usize::MAX,
            self.store.starts_ordered(),
            self.starts_after_parent(row),
        ensures
            self.step(row).0.store.starts_ordered(),
    {
        let later = self.step(row).0.store;
        self.lemma_step_keeps_spans(row);
        self.lemma_step_wf(row);
        assert forall|i: int| 0 <= i < later.spans.len() implies ((#[trigger] later.spans[i]).parent matches Some(
            p,
        ) ==> later.spans[p as int].start <= later.spans[i].start) by {
            if i < self.store.spans.len() {
                assert(later.spans[i].parent == self.store.spans[i].parent);
                if let Some(p) = self.store.spans[i].parent {
                    assert(later.spans[p as int].start == self.store.spans[p as int].start);
                }
            } else {
                assert(self.wakes(row) is Some);
                if let Some(p) = later.spans[i].parent {
                    assert(later.spans[p as int].start == self.store.spans[p as int].start);
                }
            }
        }
    }

    /// Where every start comes no earlier than the start of its parent, no
    /// span starts before its parent.
    pub proof fn lemma_run_keeps_start_order(self, work: Seq<RowModel>)
        requires
            self.wf(),
            self.has_room(work),
            self.in_start_order(work),
            self.store.starts_ordered(),
        ensures
            self.run(work).store.starts_ordered(),
        decreases self.state.queued.len() + work.len(), work.len(),
    {
        if work.len() > 0 {
            self.lemma_step_wf(work[0]);
            self.lemma_step_keeps_start_order(work[0]);
            self.step(work[0]).0.lemma_run_keeps_start_order(self.step(work[0]).1 + work.skip(1));
        }
    }

    /// Whether the reader knows of every span whose aggregates are out of
    /// date: each span caches what it should, or is outdated, or is an
    /// ancestor of an outdated span.
    pub open spec fn tracks_staleness(self) -> bool {
        forall|i: int|
            #![trigger self.store.is_fresh(i as usize)]
            0 <= i < self.store.spans.len() ==> self.store.is_fresh(i as usize)
                || self.store.is_stale(self.state.outdated_spans, i as usize)
    }

    proof fn lemma_close_interval_tracks(self, span: SpanId, thread: u64, ts: u64)
        requires
            self.store.wf(),
            self.state.self_time_started.contains_key((span, thread)) ==> self.store.contains(span),
            self.tracks_staleness(),
        ensures
            self.close_interval(span, thread, ts).tracks_staleness(),
    {
        if self.state.self_time_started.contains_key((span, thread)) {
            let after = self.close_interval(span, thread, ts);
            assert forall|i: int|
                #![trigger after.store.is_fresh(i as usize)]
                0 <= i < after.store.spans.len() implies after.store.is_fresh(i as usize)
                || after.store.is_stale(after.state.outdated_spans, i as usize) by {
                if i == span {
                    assert(after.store.is_ancestor_or_self(span, span));
                } else if self.store.is_stale(self.state.outdated_spans, i as usize) {
                    self.store.lemma_stale_stays(
                        after.store,
                        self.state.outdated_spans,
                        after.state.outdated_spans,
                        i as usize,
                    );
                } else {
                    assert(self.store.is_fresh(i as usize));
                    self.store.lemma_fresh_stays(after.store, i as usize);
                }
            }
        }
    }

    proof fn lemma_apply_ready_tracks(self, row: RowModel)
        requires
            self.wf(),
            self.waits_for(row) is None,
            row is Start ==> self.store.spans.len() < usize::MAX,
            self.tracks_staleness(),
        ensures
            self.apply_ready(row).tracks_staleness(),
    {
        let after = self.apply_ready(row);
        self.lemma_apply_ready_wf(row);
        match row {
            RowModel::Start { ts, id, parent, name, target, values } => {
                let fresh_id = self.store.spans.len() as usize;
                assert forall|i: int|
                    #![trigger after.store.is_fresh(i as usize)]
                    0 <= i < after.store.spans.len() implies after.store.is_fresh(i as usize)
                    || after.store.is_stale(after.state.outdated_spans, i as usize) by {
                    if i == fresh_id {
                        assert(after.store.is_ancestor_or_self(fresh_id, fresh_id));
                    } else if self.resolve(parent) == Some(i as usize) {
                        assert(after.store.is_ancestor_or_self(i as usize, i as usize));
                    } else if self.store.is_stale(self.state.outdated_spans, i as usize) {
                        self.store.lemma_stale_stays(
                            after.store,
                            self.state.outdated_spans,
                            after.state.outdated_spans,
                            i as usize,
                        );
                    } else {
                        assert(self.store.is_fresh(i as usize));
                        assert forall|k: int|
                            0 <= k < self.store.spans[i].children.len() implies after.store.spans[#[trigger] self.store.spans[i].children[k] as int].inclusive_time
                            == self.store.spans[self.store.spans[i].children[k] as int].inclusive_time by {
                            assert(self.store.spans[i].children[k] < self.store.spans.len());
                        }
                        self.store.lemma_fresh_stays(after.store, i as usize);
                    }
                }
            },
            RowModel::End { ts, id } => {},
            RowModel::Enter { ts, id, thread_id } => {
                let stack = self.state.stack_of(thread_id);
                let ticked = self.tick(thread_id, ts);
                assert(ticked.tracks_staleness());
                if stack.len() > 0 {
                    assert(stack.last() == self.state.thread_stacks[thread_id][stack.len() - 1]);
                    ticked.lemma_close_interval_tracks(stack.last(), thread_id, ts);
                }
            },
            RowModel::Exit { ts, id, thread_id } => {
                let span = self.state.active_ids[id];
                let stack = self.state.stack_of(thread_id);
                match topmost(stack, span) {
                    Some(k) => {
                        let left = self.tick(thread_id, ts).set_stack(thread_id, stack.remove(k));
                        let resumed = if k > 0 {
                            left.open_interval(stack.remove(k).last(), thread_id, ts)
                        } else {
                            left
                        };
                        assert(resumed.store == self.store);
                        assert(resumed.state.outdated_spans == self.state.outdated_spans);
                        assert(resumed.tracks_staleness());
                        resumed.lemma_close_interval_tracks(span, thread_id, ts);
                    },
                    None => {},
                }
            },
            RowModel::Event { ts, parent, values } => {
                assert forall|i: int|
                    #![trigger after.store.is_fresh(i as usize)]
                    0 <= i < after.store.spans.len() implies after.store.is_fresh(i as usize)
                    || after.store.is_stale(after.state.outdated_spans, i as usize) by {
                    if self.store.is_stale(self.state.outdated_spans, i as usize) {
                        self.store.lemma_stale_stays(
                            after.store,
                            self.state.outdated_spans,
                            after.state.outdated_spans,
                            i as usize,
                        );
                    } else {
                        assert(self.store.is_fresh(i as usize));
                        self.store.lemma_fresh_stays(after.store, i as usize);
                    }
                }
            },
        }
    }

    /// One record keeps the reader informed of every span whose aggregates
    /// are out of date.
    pub proof fn lemma_step_tracks(self, row: RowModel)
        requires
            self.wf(),
            self.wakes(row) is Some ==> self.store.spans.len() < usize::MAX,
            self.tracks_staleness(),
        ensures
            self.step(row).0.tracks_staleness(),
    {
        if self.waits_for(row) is None {
            self.lemma_apply_ready_tracks(row);
            let applied = self.apply(row);
            assert(self.step(row).0.store == applied.store);
            assert(self.step(row).0.state.outdated_spans == applied.state.outdated_spans);
        } else {
            assert(self.step(row).0.store == self.store);
            assert(self.step(row).0.state.outdated_spans == self.state.outdated_spans);
        }
    }

    /// A run of records keeps the reader informed of every span whose
    /// aggregates are out of date.
    pub proof fn lemma_run_tracks(self, work: Seq<RowModel>)
        requires
            self.wf(),
            self.has_room(work),
            self.tracks_staleness(),
        ensures
            self.run(work).tracks_staleness(),
        decreases self.state.queued.len() + work.len(), work.len(),
    {
        if work.len() > 0 {
            self.lemma_step_wf(work[0]);
            self.lemma_step_tracks(work[0]);
            self.step(work[0]).0.lemma_run_tracks(self.step(work[0]).1 + work.skip(1));
        }
    }

    /// At the end of a batch every span caches what it should, if the
    /// reader knew of every span whose aggregates were out of date.
    pub proof fn lemma_settle_is_fresh(self)
        requires
            self.wf(),
            self.tracks_staleness(),
        ensures
            self.settle().store.all_fresh(),
            self.settle().tracks_staleness(),
    {
        let outdated = self.state.outdated_spans;
        let done = self.settle().store;
        self.store.lemma_invalidate_refreshes(outdated);
        self.store.lemma_refresh_from_keeps(outdated, 0);
        assert forall|i: int| 0 <= i < done.spans.len() implies #[trigger] done.is_fresh(
            i as usize,
        ) by {
            if !self.store.is_stale(outdated, i as usize) {
                assert(self.store.is_fresh(i as usize));
                self.store.lemma_stale_step(outdated, i as usize);
                assert forall|k: int|
                    0 <= k < self.store.spans[i].children.len() implies done.spans[#[trigger] self.store.spans[i].children[k] as int].inclusive_time
                    == self.store.spans[self.store.spans[i].children[k] as int].inclusive_time by {
                    let c = self.store.spans[i].children[k];
                    assert(!self.store.is_stale(outdated, c));
                    assert(done.spans[c as int] == self.store.spans[c as int]);
                }
                assert(done.spans[i] == self.store.spans[i]);
                self.store.lemma_fresh_stays(done, i as usize);
            }
        }
    }

    /// Whether `row`, if it is an enter or an exit that is applied, comes no
    /// earlier than the enter or exit that was applied last on its thread.
    pub open spec fn keeps_time(self, row: RowModel) -> bool {
        match row {
            RowModel::Enter { ts, thread_id, .. } => self.waits_for(row) is None
                && self.state.clocks.contains_key(thread_id) ==> self.state.clocks[thread_id] <= ts,
            RowModel::Exit { ts, thread_id, .. } => self.waits_for(row) is None
                && self.state.clocks.contains_key(thread_id) ==> self.state.clocks[thread_id] <= ts,
            _ => true,
        }
    }

    /// Whether on every thread the enters and exits of `work`, and those
    /// that `work` wakes, are applied in the order of their timestamps.
    pub open spec fn in_thread_order(self, work: Seq<RowModel>) -> bool
        decreases self.state.queued.len() + work.len(), work.len(),
    {
        if work.len() == 0 {
            true
        } else {
            proof {
                lemma_split_queue(self.state.queued, work[0]->Start_id);
            }
            self.keeps_time(work[0]) && self.step(work[0]).0.in_thread_order(
                self.step(work[0]).1 + work.skip(1),
            )
        }
    }

    /// On every thread, the intervals that were closed for a span add up to
    /// no more than the time from the thread's first enter of the span to
    /// the last close; an open interval starts no earlier than the last
    /// close, and nothing lies after the thread's latest enter or exit.
    pub open spec fn times_add_up(self) -> bool {
        &&& forall|span: SpanId, thread: u64| #[trigger]
            self.state.thread_times.contains_key((span, thread)) ==> {
                &&& self.state.thread_times[(span, thread)].adds_up()
                &&& self.state.clocks.contains_key(thread)
                &&& self.state.thread_times[(span, thread)].last_close()
                    <= self.state.clocks[thread]
            }
        &&& forall|span: SpanId, thread: u64| #[trigger]
            self.state.self_time_started.contains_key((span, thread)) ==> {
                &&& self.state.thread_times.contains_key((span, thread))
                &&& self.state.clocks.contains_key(thread)
                &&& self.state.thread_times[(span, thread)].last_close()
                    <= self.state.self_time_started[(span, thread)]
                &&& self.state.self_time_started[(span, thread)] <= self.state.clocks[thread]
            }
    }

    proof fn lemma_tick_adds_up(self, thread: u64, ts: u64)
        requires
            self.times_add_up(),
            self.state.clocks.contains_key(thread) ==> self.state.clocks[thread] <= ts,
        ensures
            self.tick(thread, ts).times_add_up(),
            self.tick(thread, ts).state.clocks[thread] == ts,
            self.tick(thread, ts).state.clocks.contains_key(thread),
    {
        let after = self.tick(thread, ts);
        assert forall|s: SpanId, t: u64| #[trigger]
            after.state.thread_times.contains_key((s, t)) implies {
            &&& after.state.thread_times[(s, t)].adds_up()
            &&& after.state.clocks.contains_key(t)
            &&& after.state.thread_times[(s, t)].last_close() <= after.state.clocks[t]
        } by {
            assert(self.state.thread_times.contains_key((s, t)));
        }
        assert forall|s: SpanId, t: u64| #[trigger]
            after.state.self_time_started.contains_key((s, t)) implies {
            &&& after.state.thread_times.contains_key((s, t))
            &&& after.state.clocks.contains_key(t)
            &&& after.state.thread_times[(s, t)].last_close() <= after.state.self_time_started[(
                s,
                t,
            )]
            &&& after.state.self_time_started[(s, t)] <= after.state.clocks[t]
        } by {
            assert(self.state.self_time_started.contains_key((s, t)));
        }
    }

    proof fn lemma_open_interval_adds_up(self, span: SpanId, thread: u64, ts: u64)
        requires
            self.times_add_up(),
            self.state.clocks.contains_key(thread),
            self.state.clocks[thread] == ts,
        ensures
            self.open_interval(span, thread, ts).times_add_up(),
            self.open_interval(span, thread, ts).state.clocks == self.state.clocks,
    {
        let after = self.open_interval(span, thread, ts);
        assert forall|s: SpanId, t: u64| #[trigger]
            after.state.thread_times.contains_key((s, t)) implies {
            &&& after.state.thread_times[(s, t)].adds_up()
            &&& after.state.clocks.contains_key(t)
            &&& after.state.thread_times[(s, t)].last_close() <= after.state.clocks[t]
        } by {
            if (s, t) != (span, thread) {
                assert(self.state.thread_times.contains_key((s, t)));
            } else if self.state.thread_times.contains_key((span, thread)) {
            } else {
                assert(intervals_total(Seq::<(u64, u64)>::empty()) == 0);
            }
        }
        assert forall|s: SpanId, t: u64| #[trigger]
            after.state.self_time_started.contains_key((s, t)) implies {
            &&& after.state.thread_times.contains_key((s, t))
            &&& after.state.clocks.contains_key(t)
            &&& after.state.thread_times[(s, t)].last_close() <= after.state.self_time_started[(
                s,
                t,
            )]
            &&& after.state.self_time_started[(s, t)] <= after.state.clocks[t]
        } by {
            if (s, t) != (span, thread) {
                assert(self.state.self_time_started.contains_key((s, t)));
            } else if self.state.thread_times.contains_key((span, thread)) {
            }
        }
    }

    proof fn lemma_close_interval_adds_up(self, span: SpanId, thread: u64, ts: u64)
        requires
            self.times_add_up(),
            self.state.clocks.contains_key(thread),
            self.state.clocks[thread] == ts,
        ensures
            self.close_interval(span, thread, ts).times_add_up(),
            self.close_interval(span, thread, ts).state.clocks == self.state.clocks,
    {
        if self.state.self_time_started.contains_key((span, thread)) {
            let after = self.close_interval(span, thread, ts);
            let started = self.state.self_time_started[(span, thread)];
            let charged = self.state.thread_times[(span, thread)];
            assert(self.state.thread_times.contains_key((span, thread)));
            assert(charged.closed.push((started, ts)).drop_last() =~= charged.closed);
            assert forall|s: SpanId, t: u64| #[trigger]
                after.state.thread_times.contains_key((s, t)) implies {
                &&& after.state.thread_times[(s, t)].adds_up()
                &&& after.state.clocks.contains_key(t)
                &&& after.state.thread_times[(s, t)].last_close() <= after.state.clocks[t]
            } by {
                if (s, t) != (span, thread) {
                    assert(self.state.thread_times.contains_key((s, t)));
                }
            }
            assert forall|s: SpanId, t: u64| #[trigger]
                after.state.self_time_started.contains_key((s, t)) implies {
                &&& after.state.thread_times.contains_key((s, t))
                &&& after.state.clocks.contains_key(t)
                &&& after.state.thread_times[(s, t)].last_close()
                    <= after.state.self_time_started[(s, t)]
                &&& after.state.self_time_started[(s, t)] <= after.state.clocks[t]
            } by {
                assert(self.state.self_time_started.contains_key((s, t)));
            }
        }
    }

    /// One record that comes in the order of its thread's timestamps keeps
    /// the charged times within their bounds.
    pub proof fn lemma_step_adds_up(self, row: RowModel)
        requires
            self.times_add_up(),
            self.keeps_time(row),
        ensures
            self.step(row).0.times_add_up(),
    {
        if self.waits_for(row) is None {
            match row {
                RowModel::Enter { ts, id, thread_id } => {
                    let span = self.state.active_ids[id];
                    let stack = self.state.stack_of(thread_id);
                    let ticked = self.tick(thread_id, ts);
                    self.lemma_tick_adds_up(thread_id, ts);
                    let paused = if stack.len() > 0 {
                        ticked.close_interval(stack.last(), thread_id, ts)
                    } else {
                        ticked
                    };
                    if stack.len() > 0 {
                        ticked.lemma_close_interval_adds_up(stack.last(), thread_id, ts);
                    }
                    let pushed = paused.set_stack(thread_id, stack.push(span));
                    assert(pushed.times_add_up());
                    pushed.lemma_open_interval_adds_up(span, thread_id, ts);
                },
                RowModel::Exit { ts, id, thread_id } => {
                    let span = self.state.active_ids[id];
                    let stack = self.state.stack_of(thread_id);
                    let ticked = self.tick(thread_id, ts);
                    self.lemma_tick_adds_up(thread_id, ts);
                    match topmost(stack, span) {
                        Some(k) => {
                            let left = ticked.set_stack(thread_id, stack.remove(k));
                            assert(left.times_add_up());
                            let resumed = if k > 0 {
                                left.open_interval(stack.remove(k).last(), thread_id, ts)
                            } else {
                                left
                            };
                            if k > 0 {
                                left.lemma_open_interval_adds_up(
                                    stack.remove(k).last(),
                                    thread_id,
                                    ts,
                                );
                            }
                            resumed.lemma_close_interval_adds_up(span, thread_id, ts);
                        },
                        None => {},
                    }
                },
                _ => {
                    let after = self.step(row).0;
                    assert(after.state.thread_times == self.state.thread_times);
                    assert(after.state.self_time_started == self.state.self_time_started);
                    assert(after.state.clocks == self.state.clocks);
                },
            }
        } else {
            let after = self.step(row).0;
            assert(after.state.thread_times == self.state.thread_times);
            assert(after.state.self_time_started == self.state.self_time_started);
            assert(after.state.clocks == self.state.clocks);
        }
    }

    /// Where on every thread the enters and exits are applied in the order
    /// of their timestamps, the intervals that are closed for a span on a
    /// thread add up to no more than the time between the thread's first
    /// enter of the span and the last close.
    pub proof fn lemma_run_adds_up(self, work: Seq<RowModel>)
        requires
            self.times_add_up(),
            self.in_thread_order(work),
        ensures
            self.run(work).times_add_up(),
            forall|span: SpanId, thread: u64| #[trigger]
                self.run(work).state.thread_times.contains_key((span, thread)) ==> intervals_total(
                    self.run(work).state.thread_times[(span, thread)].closed,
                ) <= self.run(work).state.thread_times[(span, thread)].last_close()
                    - self.run(work).state.thread_times[(span, thread)].first_enter,
        decreases self.state.queued.len() + work.len(), work.len(),
    {
        if work.len() > 0 {
            lemma_split_queue(self.state.queued, work[0]->Start_id);
            self.lemma_step_adds_up(work[0]);
            self.step(work[0]).0.lemma_run_adds_up(self.step(work[0]).1 + work.skip(1));
        }
    }

    /// Whether the `k`-th interval that was charged to `span` on `thread`, if
    /// there is one, is among the span's self-time intervals in the store.
    pub open spec fn charge_is_stored(self, span: SpanId, thread: u64, k: int) -> bool {
        self.state.thread_times.contains_key((span, thread)) && 0 <= k
            < self.state.thread_times[(span, thread)].closed.len() ==> self.store.contains(span)
            && self.store.spans[span as int].self_time.contains(
            self.state.thread_times[(span, thread)].closed[k],
        )
    }

    /// Whether every interval that was charged to a span on some thread is
    /// among the span's self-time intervals in the store.
    pub open spec fn charges_are_stored(self) -> bool {
        forall|span: SpanId, thread: u64, k: int| #[trigger] self.charge_is_stored(span, thread, k)
    }

    proof fn lemma_same_charges_stored(self, after: Replay)
        requires
            self.charges_are_stored(),
            after.state.thread_times == self.state.thread_times,
            self.store.spans.len() <= after.store.spans.len(),
            forall|i: int|
                0 <= i < self.store.spans.len() ==> (#[trigger] after.store.spans[i]).self_time
                    == self.store.spans[i].self_time,
        ensures
            after.charges_are_stored(),
    {
        assert forall|s: SpanId, t: u64, k: int| #[trigger] after.charge_is_stored(s, t, k) by {
            assert(self.charge_is_stored(s, t, k));
            if self.store.contains(s) {
                assert(after.store.spans[s as int].self_time == self.store.spans[s as int].self_time);
            }
        }
    }

    proof fn lemma_close_interval_stores(self, span: SpanId, thread: u64, ts: u64)
        requires
            self.store.wf(),
            self.state.self_time_started.contains_key((span, thread)) ==> self.store.contains(span),
            self.charges_are_stored(),
        ensures
            self.close_interval(span, thread, ts).charges_are_stored(),
    {
        if self.state.self_time_started.contains_key((span, thread)) {
            let after = self.close_interval(span, thread, ts);
            let started = self.state.self_time_started[(span, thread)];
            assert forall|s: SpanId, t: u64, k: int| #[trigger] after.charge_is_stored(s, t, k) by {
                assert(self.charge_is_stored(s, t, k));
                if after.state.thread_times.contains_key((s, t)) && 0 <= k
                    < after.state.thread_times[(s, t)].closed.len() {
                    let interval = after.state.thread_times[(s, t)].closed[k];
                    if (s, t) == (span, thread) && k == after.state.thread_times[(s, t)].closed.len()
                        - 1 {
                        let last = self.store.spans[span as int].self_time.len() as int;
                        assert(after.store.spans[span as int].self_time[last] == (started, ts));
                    } else {
                        assert(self.state.thread_times.contains_key((s, t)));
                        assert(self.state.thread_times[(s, t)].closed[k] == interval);
                        let before = self.store.spans[s as int].self_time;
                        let j = choose|j: int| 0 <= j < before.len() && before[j] == interval;
                        assert(after.store.spans[s as int].self_time[j] == interval);
                    }
                }
            }
        }
    }

    proof fn lemma_open_interval_stores(self, span: SpanId, thread: u64, ts: u64)
        requires
            self.charges_are_stored(),
        ensures
            self.open_interval(span, thread, ts).charges_are_stored(),
    {
        let after = self.open_interval(span, thread, ts);
        assert forall|s: SpanId, t: u64, k: int| #[trigger] after.charge_is_stored(s, t, k) by {
            assert(self.charge_is_stored(s, t, k));
        }
    }

    /// One record keeps every charged interval in the store.
    pub proof fn lemma_step_stores_charges(self, row: RowModel)
        requires
            self.wf(),
            self.wakes(row) is Some ==> self.store.spans.len() < usize::MAX,
            self.charges_are_stored(),
        ensures
            self.step(row).0.charges_are_stored(),
    {
        let after = self.step(row).0;
        if self.waits_for(row) is None {
            self.lemma_apply_ready_wf(row);
            match row {
                RowModel::Enter { ts, id, thread_id } => {
                    let span = self.state.active_ids[id];
                    let stack = self.state.stack_of(thread_id);
                    let ticked = self.tick(thread_id, ts);
                    self.lemma_same_charges_stored(ticked);
                    let paused = if stack.len() > 0 {
                        ticked.close_interval(stack.last(), thread_id, ts)
                    } else {
                        ticked
                    };
                    if stack.len() > 0 {
                        assert(stack.last() == self.state.thread_stacks[thread_id][stack.len() - 1]);
                        ticked.lemma_close_interval_stores(stack.last(), thread_id, ts);
                    }
                    let pushed = paused.set_stack(thread_id, stack.push(span));
                    paused.lemma_same_charges_stored(pushed);
                    pushed.lemma_open_interval_stores(span, thread_id, ts);
                },
                RowModel::Exit { ts, id, thread_id } => {
                    let span = self.state.active_ids[id];
                    let stack = self.state.stack_of(thread_id);
                    let ticked = self.tick(thread_id, ts);
                    self.lemma_same_charges_stored(ticked);
                    match topmost(stack, span) {
                        Some(k) => {
                            let left = ticked.set_stack(thread_id, stack.remove(k));
                            ticked.lemma_same_charges_stored(left);
                            let resumed = if k > 0 {
                                left.open_interval(stack.remove(k).last(), thread_id, ts)
                            } else {
                                left
                            };
                            if k > 0 {
                                left.lemma_open_interval_stores(stack.remove(k).last(), thread_id, ts);
                            }
                            resumed.lemma_close_interval_stores(span, thread_id, ts);
                        },
                        None => {},
                    }
                },
                _ => {
                    self.lemma_step_keeps_intervals(row);
                    self.lemma_same_charges_stored(after);
                },
            }
        } else {
            self.lemma_same_charges_stored(after);
        }
    }

    proof fn lemma_step_keeps_intervals(self, row: RowModel)
        requires
            self.wf(),
            self.waits_for(row) is None,
            row is Start || row is End || row is Event,
        ensures
            self.step(row).0.state.thread_times == self.state.thread_times,
            self.store.spans.len() <= self.step(row).0.store.spans.len(),
            forall|i: int|
                0 <= i < self.store.spans.len() ==> (#[trigger] self.step(row).0.store.spans[i]).self_time
                    == self.store.spans[i].self_time,
    {
    }

    /// A run of records keeps every charged interval in the store.
    pub proof fn lemma_run_stores_charges(self, work: Seq<RowModel>)
        requires
            self.wf(),
            self.has_room(work),
            self.charges_are_stored(),
        ensures
            self.run(work).charges_are_stored(),
        decreases self.state.queued.len() + work.len(), work.len(),
    {
        if work.len() > 0 {
            self.lemma_step_wf(work[0]);
            self.lemma_step_stores_charges(work[0]);
            self.step(work[0]).0.lemma_run_stores_charges(self.step(work[0]).1 + work.skip(1));
        }
    }

    /// A record that comes before the start that it needs changes nothing:
    /// once the start has come, all is as if the two had come the other way
    /// round.
    pub proof fn lemma_late_start_catches_up(self, early: RowModel, start: RowModel)
        requires
            start is Start,
            self.waits_for(start) is None,
            needs(early) == Some(start->Start_id),
            !self.state.active_ids.contains_key(start->Start_id),
            awaiting(self.state.queued, start->Start_id).len() == 0,
        ensures
            self.run(seq![early, start]) == self.run(seq![start, early]),
    {
        let id = start->Start_id;
        let queued = self.state.queued;
        lemma_without_nothing(queued, id);
        lemma_awaiting_push(queued, id, early, id);
        assert(queued.push((id, early)).drop_last() =~= queued);
        assert(awaiting(queued, id) =~= Seq::empty());
        // the early record first: it waits, and the start wakes it
        let waiting = self.defer(id, early);
        assert(self.step(early) == (waiting, Seq::<RowModel>::empty()));
        assert(Seq::<RowModel>::empty() + seq![early, start].skip(1) =~= seq![start]);
        assert(self.run(seq![early, start]) == waiting.run(seq![start]));
        assert(waiting.waits_for(start) is None);
        let started = self.apply_ready(start);
        assert(waiting.apply_ready(start).take_queue(id) == started);
        assert(awaiting(waiting.apply_ready(start).state.queued, id) =~= seq![early]);
        assert(seq![early] + seq![start].skip(1) =~= seq![early]);
        assert(waiting.run(seq![start]) == started.run(seq![early]));
        // the start first: it wakes nothing, and the other record follows
        assert(self.step(start) == (started, Seq::<RowModel>::empty()));
        assert(Seq::<RowModel>::empty() + seq![start, early].skip(1) =~= seq![early]);
        assert(self.run(seq![start, early]) == started.run(seq![early]));
    }

    /// Whether this replay and `other` are the same but for the generation
    /// of the store.
    pub open spec fn same_but_generation(self, other: Replay) -> bool {
        self.state == other.state && self.store.same_contents(other.store)
    }

    proof fn lemma_step_ignores_generation(self, other: Replay, row: RowModel)
        requires
            self.same_but_generation(other),
        ensures
            self.step(row).0.same_but_generation(other.step(row).0),
            self.step(row).1 == other.step(row).1,
    {
    }

    proof fn lemma_run_ignores_generation(self, other: Replay, work: Seq<RowModel>)
        requires
            self.same_but_generation(other),
        ensures
            self.run(work).same_but_generation(other.run(work)),
        decreases self.state.queued.len() + work.len(), work.len(),
    {
        if work.len() > 0 {
            self.lemma_step_ignores_generation(other, work[0]);
            lemma_split_queue(self.state.queued, work[0]->Start_id);
            self.step(work[0]).0.lemma_run_ignores_generation(
                other.step(work[0]).0,
                self.step(work[0]).1 + work.skip(1),
            );
        }
    }

    proof fn lemma_process_all_ignores_generation(self, other: Replay, rows: Seq<RowModel>)
        requires
            self.same_but_generation(other),
        ensures
            self.process_all(rows).same_but_generation(other.process_all(rows)),
        decreases rows.len(),
    {
        if rows.len() > 0 {
            self.lemma_process_all_ignores_generation(other, rows.drop_last());
            self.process_all(rows.drop_last()).lemma_run_ignores_generation(
                other.process_all(rows.drop_last()),
                seq![rows.last()],
            );
        }
    }

    /// The same records, replayed after a reset, give the same spans with
    /// the same aggregates, and leave the reader in the same state.
    pub proof fn lemma_replay_is_repeatable(first: u64, second: u64, rows: Seq<RowModel>)
        ensures
            Replay::fresh(first).process_all(rows).settle().same_but_generation(
                Replay::fresh(second).process_all(rows).settle(),
            ),
    {
        let a = Replay::fresh(first).process_all(rows);
        let b = Replay::fresh(second).process_all(rows);
        Replay::fresh(first).lemma_process_all_ignores_generation(Replay::fresh(second), rows);
        a.store.lemma_refresh_ignores_generation(b.store, a.state.outdated_spans, 0);
    }
}

impl StoreModel {
    proof fn lemma_ancestors_ignore_generation(self, other: StoreModel, a: SpanId, d: SpanId)
        requires
            self.same_contents(other),
        ensures
            self.is_ancestor_or_self(a, d) == other.is_ancestor_or_self(a, d),
        decreases d,
    {
        if a != d && d < self.spans.len() {
            if let Some(p) = self.spans[d as int].parent {
                if p < d {
                    self.lemma_ancestors_ignore_generation(other, a, p);
                }
            }
        }
    }

    proof fn lemma_stale_ignores_generation(self, other: StoreModel, outdated: Set<SpanId>, id: SpanId)
        requires
            self.same_contents(other),
        ensures
            self.is_stale(outdated, id) == other.is_stale(outdated, id),
    {
        if self.is_stale(outdated, id) {
            let d = choose|d: SpanId|
                outdated.contains(d) && self.contains(d) && #[trigger] self.is_ancestor_or_self(id, d);
            self.lemma_ancestors_ignore_generation(other, id, d);
            assert(other.is_ancestor_or_self(id, d));
        }
        if other.is_stale(outdated, id) {
            let d = choose|d: SpanId|
                outdated.contains(d) && other.contains(d) && #[trigger] other.is_ancestor_or_self(
                    id,
                    d,
                );
            self.lemma_ancestors_ignore_generation(other, id, d);
            assert(self.is_ancestor_or_self(id, d));
        }
    }

    proof fn lemma_sum_ignores_generation(self, other: StoreModel, children: Seq<SpanId>)
        requires
            self.same_contents(other),
        ensures
            self.cached_inclusive_sum(children) == other.cached_inclusive_sum(children),
        decreases children.len(),
    {
        if children.len() > 0 {
            self.lemma_sum_ignores_generation(other, children.drop_last());
        }
    }

    proof fn lemma_refresh_ignores_generation(
        self,
        other: StoreModel,
        outdated: Set<SpanId>,
        from: nat,
    )
        requires
            self.same_contents(other),
        ensures
            self.refresh_from(outdated, from).same_contents(other.refresh_from(outdated, from)),
        decreases self.spans.len() - from,
    {
        if from < self.spans.len() {
            self.lemma_refresh_ignores_generation(other, outdated, from + 1);
            let a = self.refresh_from(outdated, from + 1);
            let b = other.refresh_from(outdated, from + 1);
            self.lemma_stale_ignores_generation(other, outdated, from as usize);
            let id = from as usize;
            a.lemma_sum_ignores_generation(b, a.spans[id as int].children);
            assert(a.refreshed_span(id) == b.refreshed_span(id));
        }
    }
}

} // verus!
