//! The span store: an append-only, densely indexed collection of spans with
//! parent and child links, self-time intervals and cached aggregates.

use std::collections::HashSet;
use vstd::prelude::*;
use vstd::std_specs::hash::group_hash_axioms;
use crate::span::{
    attrs_view, clamp, events_view, interval_len, intervals_total, spans_view, AttrModel,
    EventModel, Span, SpanEvent, SpanId, SpanModel, SpanValue,
};

verus! {

broadcast use group_hash_axioms;

/// What a [`SpanStore`] holds.
pub struct StoreModel {
    /// All spans, indexed by their id.
    pub spans: Seq<SpanModel>,
    /// The spans without a parent, in creation order.
    pub roots: Seq<SpanId>,
    /// Events that belong to no span, in arrival order.
    pub root_events: Seq<EventModel>,
    /// Number of resets the store has gone through.
    pub generation: u64,
}

impl StoreModel {
    /// A store without spans.
    pub open spec fn empty(generation: u64) -> StoreModel {
        StoreModel { spans: Seq::empty(), roots: Seq::empty(), root_events: Seq::empty(), generation }
    }

    /// Whether `id` names a span of this store.
    pub open spec fn contains(self, id: SpanId) -> bool {
        id < self.spans.len()
    }

    /// Whether `parent` names a span of this store, or nothing.
    pub open spec fn contains_opt(self, parent: Option<SpanId>) -> bool {
        parent matches Some(p) ==> self.contains(p)
    }

    /// The links between spans are consistent: a parent is older than its
    /// child, a span lists exactly its children, in creation order, and the
    /// root list holds exactly the parentless spans, in creation order. Every
    /// id fits the machine's index type.
    pub open spec fn wf(self) -> bool {
        &&& self.spans.len() <= usize::MAX
        &&& forall|i: int|
            0 <= i < self.spans.len() ==> (#[trigger] self.spans[i].parent matches Some(p) ==> p < i
                && self.spans[p as int].children.contains(i as usize))
        &&& forall|i: int, k: int|
            0 <= i < self.spans.len() && 0 <= k < self.spans[i].children.len() ==> {
                let c = #[trigger] self.spans[i].children[k];
                i < c < self.spans.len() && self.spans[c as int].parent == Some(i as usize)
            }
        &&& forall|i: int, k: int, l: int|
            0 <= i < self.spans.len() && 0 <= k < l < self.spans[i].children.len()
                ==> #[trigger] self.spans[i].children[k] < #[trigger] self.spans[i].children[l]
        &&& forall|k: int|
            0 <= k < self.roots.len() ==> {
                let r = #[trigger] self.roots[k];
                r < self.spans.len() && self.spans[r as int].parent is None
            }
        &&& forall|k: int, l: int|
            0 <= k < l < self.roots.len() ==> #[trigger] self.roots[k] < #[trigger] self.roots[l]
        &&& forall|i: int|
            0 <= i < self.spans.len() && (#[trigger] self.spans[i].parent) is None
                ==> self.roots.contains(i as usize)
    }

    /// The store after a span was added under `parent`.
    ///
    /// The new span gets the next free id, is appended to its parent's
    /// children, or to the roots when it has no parent, and starts without
    /// self time.
    pub open spec fn add_span(
        self,
        parent: Option<SpanId>,
        ts: u64,
        target: Seq<char>,
        name: Seq<char>,
        values: Seq<(Seq<char>, AttrModel)>,
    ) -> StoreModel {
        let id = self.spans.len() as usize;
        let span = SpanModel {
            parent,
            start: ts,
            target,
            name,
            values,
            self_time: Seq::empty(),
            children: Seq::empty(),
            events: Seq::empty(),
            exclusive_time: 0,
            inclusive_time: 0,
            child_count: 0,
        };
        match parent {
            Some(p) => StoreModel {
                spans: self.spans.update(
                    p as int,
                    SpanModel { children: self.spans[p as int].children.push(id), ..self.spans[p as int] },
                ).push(span),
                ..self
            },
            None => StoreModel { spans: self.spans.push(span), roots: self.roots.push(id), ..self },
        }
    }

    /// The store after the interval `(start, end)` was appended to the self
    /// time of span `id`.
    pub open spec fn add_self_time(self, id: SpanId, start: u64, end: u64) -> StoreModel {
        StoreModel {
            spans: self.spans.update(
                id as int,
                SpanModel {
                    self_time: self.spans[id as int].self_time.push((start, end)),
                    ..self.spans[id as int]
                },
            ),
            ..self
        }
    }

    /// The store after an event was attached to `parent`, or to the store
    /// itself when there is no parent.
    pub open spec fn add_event(
        self,
        parent: Option<SpanId>,
        ts: u64,
        values: Seq<(Seq<char>, AttrModel)>,
    ) -> StoreModel {
        let event = EventModel { ts, values };
        match parent {
            Some(p) => StoreModel {
                spans: self.spans.update(
                    p as int,
                    SpanModel { events: self.spans[p as int].events.push(event), ..self.spans[p as int] },
                ),
                ..self
            },
            None => StoreModel { root_events: self.root_events.push(event), ..self },
        }
    }

    /// The store after a reset: nothing is left but the generation counter,
    /// which has moved on by one.
    pub open spec fn reset(self) -> StoreModel {
        StoreModel::empty((self.generation + 1) as u64)
    }

    /// Whether `a` is `d` or one of its ancestors.
    pub open spec fn is_ancestor_or_self(self, a: SpanId, d: SpanId) -> bool
        decreases d,
    {
        a == d || (d < self.spans.len() && match self.spans[d as int].parent {
            Some(p) => p < d && self.is_ancestor_or_self(a, p),
            None => false,
        })
    }

    /// Whether the aggregates of `id` are affected by a change to a span in
    /// `outdated`: `id` is such a span, or an ancestor of one.
    pub open spec fn is_stale(self, outdated: Set<SpanId>, id: SpanId) -> bool {
        exists|d: SpanId|
            outdated.contains(d) && self.contains(d) && #[trigger] self.is_ancestor_or_self(id, d)
    }

    /// Sum of the cached inclusive times of `children`.
    pub open spec fn cached_inclusive_sum(self, children: Seq<SpanId>) -> nat
        decreases children.len(),
    {
        if children.len() == 0 {
            0
        } else {
            self.cached_inclusive_sum(children.drop_last()) + (if self.contains(children.last()) {
                self.spans[children.last() as int].inclusive_time as nat
            } else {
                0
            })
        }
    }

    /// The aggregates that span `id` should cache, given its intervals and
    /// what its children cache now.
    pub open spec fn refreshed_span(self, id: SpanId) -> SpanModel {
        let span = self.spans[id as int];
        let exclusive = intervals_total(span.self_time);
        SpanModel {
            exclusive_time: clamp(exclusive),
            inclusive_time: clamp(exclusive + self.cached_inclusive_sum(span.children)),
            child_count: span.children.len() as usize,
            ..span
        }
    }

    /// Whether span `id` caches what it should.
    pub open spec fn is_fresh(self, id: SpanId) -> bool {
        self.spans[id as int] == self.refreshed_span(id)
    }

    /// The store after the aggregates of span `id` were recomputed.
    pub open spec fn refresh_span(self, id: SpanId) -> StoreModel {
        StoreModel { spans: self.spans.update(id as int, self.refreshed_span(id)), ..self }
    }

    /// The store after the aggregates of every stale span with an id of
    /// `from` or more were recomputed, youngest span first.
    pub open spec fn refresh_from(self, outdated: Set<SpanId>, from: nat) -> StoreModel
        decreases self.spans.len() - from,
    {
        if from >= self.spans.len() {
            self
        } else {
            let below = self.refresh_from(outdated, from + 1);
            if self.is_stale(outdated, from as usize) {
                below.refresh_span(from as usize)
            } else {
                below
            }
        }
    }

    /// The store after the aggregates of every stale span were recomputed,
    /// children before their parents.
    pub open spec fn invalidate(self, outdated: Set<SpanId>) -> StoreModel {
        self.refresh_from(outdated, 0)
    }
}

/// Adding a span keeps the links consistent.
pub proof fn lemma_add_span_wf(
    store: StoreModel,
    parent: Option<SpanId>,
    ts: u64,
    target: Seq<char>,
    name: Seq<char>,
    values: Seq<(Seq<char>, AttrModel)>,
)
    requires
        store.wf(),
        store.contains_opt(parent),
        store.spans.len() < usize::MAX,
    ensures
        store.add_span(parent, ts, target, name, values).wf(),
{
    let after = store.add_span(parent, ts, target, name, values);
    let id = store.spans.len() as usize;
    assert(after.spans.len() == store.spans.len() + 1);
    assert forall|i: int| 0 <= i < after.spans.len() implies (#[trigger] after.spans[i].parent matches Some(
        p,
    ) ==> p < i && after.spans[p as int].children.contains(i as usize)) by {
        if let Some(p) = after.spans[i].parent {
            if i < store.spans.len() {
                assert(store.spans[i].parent == Some(p));
                let k = choose|k: int|
                    0 <= k < store.spans[p as int].children.len() && store.spans[p as int].children[k]
                        == i as usize;
                assert(after.spans[p as int].children[k] == i as usize);
            } else {
                let last = store.spans[p as int].children.len() as int;
                assert(after.spans[p as int].children[last] == i as usize);
            }
        }
    }
    assert forall|i: int, k: int|
        0 <= i < after.spans.len() && 0 <= k < after.spans[i].children.len() implies {
        let c = #[trigger] after.spans[i].children[k];
        i < c < after.spans.len() && after.spans[c as int].parent == Some(i as usize)
    } by {
        if i < store.spans.len() && k < store.spans[i].children.len() {
            assert(after.spans[i].children[k] == store.spans[i].children[k]);
        }
    }
    assert forall|i: int, k: int, l: int|
        0 <= i < after.spans.len() && 0 <= k < l < after.spans[i].children.len() implies #[trigger] after.spans[i].children[k]
        < #[trigger] after.spans[i].children[l] by {
        assert(i < store.spans.len());
        assert(after.spans[i].children[k] == store.spans[i].children[k]);
        if l < store.spans[i].children.len() {
            assert(after.spans[i].children[l] == store.spans[i].children[l]);
        }
    }
    assert forall|k: int| 0 <= k < after.roots.len() implies {
        let r = #[trigger] after.roots[k];
        r < after.spans.len() && after.spans[r as int].parent is None
    } by {
        if k < store.roots.len() {
            assert(after.roots[k] == store.roots[k]);
        }
    }
    assert forall|k: int, l: int| 0 <= k < l < after.roots.len() implies #[trigger] after.roots[k]
        < #[trigger] after.roots[l] by {
        assert(after.roots[k] == store.roots[k]);
        if l < store.roots.len() {
            assert(after.roots[l] == store.roots[l]);
        }
    }
    assert forall|i: int|
        0 <= i < after.spans.len() && (#[trigger] after.spans[i].parent) is None implies after.roots.contains(
        i as usize,
    ) by {
        if i < store.spans.len() {
            assert(store.spans[i].parent is None);
            let k = choose|k: int| 0 <= k < store.roots.len() && store.roots[k] == i as usize;
            assert(after.roots[k] == i as usize);
        } else {
            assert(after.roots[store.roots.len() as int] == i as usize);
        }
    }
}

/// Appending self time or an event, and recomputing aggregates, leave the
/// links as they are.
pub proof fn lemma_same_links_wf(before: StoreModel, after: StoreModel)
    requires
        before.wf(),
        after.spans.len() == before.spans.len(),
        after.roots == before.roots,
        forall|i: int|
            0 <= i < before.spans.len() ==> (#[trigger] after.spans[i]).parent
                == before.spans[i].parent && after.spans[i].children == before.spans[i].children,
    ensures
        after.wf(),
{
    assert forall|i: int| 0 <= i < after.spans.len() implies (#[trigger] after.spans[i].parent matches Some(
        p,
    ) ==> p < i && after.spans[p as int].children.contains(i as usize)) by {
        assert(after.spans[i].parent == before.spans[i].parent);
        if let Some(p) = after.spans[i].parent {
            assert(after.spans[p as int].children == before.spans[p as int].children);
        }
    }
    assert forall|i: int, k: int|
        0 <= i < after.spans.len() && 0 <= k < after.spans[i].children.len() implies {
        let c = #[trigger] after.spans[i].children[k];
        i < c < after.spans.len() && after.spans[c as int].parent == Some(i as usize)
    } by {
        assert(after.spans[i].children == before.spans[i].children);
        let c = before.spans[i].children[k];
        assert(after.spans[c as int].parent == before.spans[c as int].parent);
    }
    assert forall|i: int, k: int, l: int|
        0 <= i < after.spans.len() && 0 <= k < l < after.spans[i].children.len() implies #[trigger] after.spans[i].children[k]
        < #[trigger] after.spans[i].children[l] by {
        assert(after.spans[i].children == before.spans[i].children);
        assert(before.spans[i].children[k] < before.spans[i].children[l]);
    }
    assert forall|k: int| 0 <= k < after.roots.len() implies {
        let r = #[trigger] after.roots[k];
        r < after.spans.len() && after.spans[r as int].parent is None
    } by {
        let r = before.roots[k];
        assert(after.spans[r as int].parent == before.spans[r as int].parent);
    }
    assert forall|i: int|
        0 <= i < after.spans.len() && (#[trigger] after.spans[i].parent) is None implies after.roots.contains(
        i as usize,
    ) by {
        assert(after.spans[i].parent == before.spans[i].parent);
        assert(before.spans[i].parent is None);
    }
}

/// The total of a list of intervals grows by the length of the interval
/// that is appended.
pub proof fn lemma_intervals_total_step(intervals: Seq<(u64, u64)>, k: int)
    requires
        0 <= k < intervals.len(),
    ensures
        intervals_total(intervals.subrange(0, k + 1)) == intervals_total(intervals.subrange(0, k))
            + interval_len(intervals[k]),
{
    assert(intervals.subrange(0, k + 1).drop_last() =~= intervals.subrange(0, k));
}

impl StoreModel {
    /// The cached sum over a list of children grows by what the appended
    /// child caches.
    pub proof fn lemma_cached_inclusive_sum_step(self, children: Seq<SpanId>, k: int)
        requires
            0 <= k < children.len(),
            self.contains(children[k]),
        ensures
            self.cached_inclusive_sum(children.subrange(0, k + 1)) == self.cached_inclusive_sum(
                children.subrange(0, k),
            ) + self.spans[children[k] as int].inclusive_time,
    {
        assert(children.subrange(0, k + 1).drop_last() =~= children.subrange(0, k));
    }

    /// The parent of an ancestor of `d` is an ancestor of `d`.
    pub proof fn lemma_ancestor_extend(self, a: SpanId, c: SpanId, d: SpanId)
        requires
            self.contains(c),
            self.spans[c as int].parent == Some(a),
            a < c,
            self.is_ancestor_or_self(c, d),
        ensures
            self.is_ancestor_or_self(a, d),
        decreases d,
    {
        if d == c {
            assert(self.is_ancestor_or_self(a, a));
        } else {
            self.lemma_ancestor_extend(a, c, self.spans[d as int].parent->Some_0);
        }
    }

    /// A proper ancestor of `d` has a child that is an ancestor of `d`, or
    /// `d` itself.
    pub proof fn lemma_ancestor_via_child(self, a: SpanId, d: SpanId) -> (k: int)
        requires
            self.wf(),
            self.contains(d),
            self.is_ancestor_or_self(a, d),
            a != d,
        ensures
            0 <= k < self.spans[a as int].children.len(),
            self.is_ancestor_or_self(self.spans[a as int].children[k], d),
        decreases d,
    {
        let p = self.spans[d as int].parent->Some_0;
        assert(self.spans[d as int].parent == Some(p));
        if p == a {
            let k = choose|k: int|
                0 <= k < self.spans[a as int].children.len() && self.spans[a as int].children[k] == d;
            assert(self.is_ancestor_or_self(d, d));
            k
        } else {
            self.lemma_ancestor_via_child(a, p)
        }
    }

    /// A span is stale exactly when it is outdated itself or has a stale
    /// child.
    pub proof fn lemma_stale_step(self, outdated: Set<SpanId>, id: SpanId)
        requires
            self.wf(),
            self.contains(id),
        ensures
            self.is_stale(outdated, id) <==> (outdated.contains(id) || exists|k: int|
                0 <= k < self.spans[id as int].children.len() && #[trigger] self.is_stale(
                    outdated,
                    self.spans[id as int].children[k],
                )),
    {
        if self.is_stale(outdated, id) {
            let d = choose|d: SpanId|
                outdated.contains(d) && self.contains(d) && #[trigger] self.is_ancestor_or_self(id, d);
            if d != id {
                let k = self.lemma_ancestor_via_child(id, d);
                assert(self.is_stale(outdated, self.spans[id as int].children[k]));
            }
        }
        if outdated.contains(id) {
            assert(self.is_ancestor_or_self(id, id));
        }
        if exists|k: int|
            0 <= k < self.spans[id as int].children.len() && #[trigger] self.is_stale(
                outdated,
                self.spans[id as int].children[k],
            ) {
            let k = choose|k: int|
                0 <= k < self.spans[id as int].children.len() && #[trigger] self.is_stale(
                    outdated,
                    self.spans[id as int].children[k],
                );
            let c = self.spans[id as int].children[k];
            let d = choose|d: SpanId|
                outdated.contains(d) && self.contains(d) && #[trigger] self.is_ancestor_or_self(c, d);
            self.lemma_ancestor_extend(id, c, d);
        }
    }

    /// Recomputing aggregates changes no span's identity: its parent, start,
    /// name, attributes, intervals, children and events stay.
    pub proof fn lemma_refresh_from_keeps(self, outdated: Set<SpanId>, from: nat)
        requires
            self.spans.len() <= usize::MAX,
        ensures
            self.refresh_from(outdated, from).spans.len() == self.spans.len(),
            self.refresh_from(outdated, from).roots == self.roots,
            self.refresh_from(outdated, from).root_events == self.root_events,
            self.refresh_from(outdated, from).generation == self.generation,
            forall|i: int|
                0 <= i < self.spans.len() ==> #[trigger] self.refresh_from(outdated, from).spans[i]
                    == (SpanModel {
                    exclusive_time: self.refresh_from(outdated, from).spans[i].exclusive_time,
                    inclusive_time: self.refresh_from(outdated, from).spans[i].inclusive_time,
                    child_count: self.refresh_from(outdated, from).spans[i].child_count,
                    ..self.spans[i]
                }),
            forall|i: int|
                0 <= i < from && i < self.spans.len() ==> #[trigger] self.refresh_from(
                    outdated,
                    from,
                ).spans[i] == self.spans[i],
        decreases self.spans.len() - from,
    {
        if from < self.spans.len() {
            self.lemma_refresh_from_keeps(outdated, from + 1);
            let below = self.refresh_from(outdated, from + 1);
            assert forall|i: int| 0 <= i < from implies #[trigger] self.refresh_from(
                outdated,
                from,
            ).spans[i] == self.spans[i] by {
                assert(below.spans[i] == self.spans[i]);
            }
        }
    }
}

/// An append-only collection of spans, indexed by their ids.
pub struct SpanStore {
    spans: Vec<Span>,
    roots: Vec<SpanId>,
    root_events: Vec<SpanEvent>,
    generation: u64,
}

impl View for SpanStore {
    type V = StoreModel;

    closed spec fn view(&self) -> StoreModel {
        StoreModel {
            spans: spans_view(self.spans@),
            roots: self.roots@,
            root_events: events_view(self.root_events@),
            generation: self.generation,
        }
    }
}

impl SpanStore {
    /// An empty store in generation 0.
    pub fn new() -> (store: SpanStore)
        ensures
            store@ == StoreModel::empty(0),
            store@.wf(),
    {
        let store = SpanStore {
            spans: Vec::new(),
            roots: Vec::new(),
            root_events: Vec::new(),
            generation: 0,
        };
        assert(store@.spans =~= Seq::empty());
        assert(store@.root_events =~= Seq::empty());
        store
    }

    /// Number of resets so far.
    pub fn generation(&self) -> (generation: u64)
        ensures
            generation == self@.generation,
    {
        self.generation
    }

    /// Number of spans.
    pub fn len(&self) -> (len: usize)
        ensures
            len == self@.spans.len(),
    {
        self.spans.len()
    }

    /// The span named `id`, if there is one.
    pub fn span(&self, id: SpanId) -> (span: Option<&Span>)
        ensures
            span is Some == self@.contains(id),
            span matches Some(s) ==> s@ == self@.spans[id as int],
    {
        if id < self.spans.len() {
            Some(&self.spans[id])
        } else {
            None
        }
    }

    /// The ids of the spans without a parent, in creation order.
    pub fn roots(&self) -> (roots: &Vec<SpanId>)
        ensures
            roots@ == self@.roots,
    {
        &self.roots
    }

    /// The ids of the children of `id`, in creation order, if there is such
    /// a span.
    pub fn children(&self, id: SpanId) -> (children: Option<&Vec<SpanId>>)
        ensures
            children is Some == self@.contains(id),
            children matches Some(c) ==> c@ == self@.spans[id as int].children,
    {
        if id < self.spans.len() {
            Some(&self.spans[id].children)
        } else {
            None
        }
    }

    /// The events that belong to no span, in arrival order.
    pub fn root_events(&self) -> (events: &Vec<SpanEvent>)
        ensures
            events_view(events@) == self@.root_events,
    {
        &self.root_events
    }

    /// Adds a span under `parent` and returns its id. The parent, whose
    /// aggregates are now stale, is put into `outdated`.
    pub fn add_span(
        &mut self,
        parent: Option<SpanId>,
        ts: u64,
        target: String,
        name: String,
        values: Vec<(String, SpanValue)>,
        outdated: &mut HashSet<SpanId>,
    ) -> (id: SpanId)
        requires
            old(self)@.wf(),
            old(self)@.contains_opt(parent),
        ensures
            id == old(self)@.spans.len(),
            final(self)@ == old(self)@.add_span(parent, ts, target@, name@, attrs_view(values@)),
            final(self)@.wf(),
            final(outdated)@ == match parent {
                Some(p) => old(outdated)@.insert(p),
                None => old(outdated)@,
            },
    {
        let id = self.spans.len();
        match parent {
            Some(p) => {
                self.spans[p].children.push(id);
                outdated.insert(p);
            },
            None => {
                self.roots.push(id);
            },
        }
        self.spans.push(
            Span {
                parent,
                start: ts,
                target,
                name,
                values,
                self_time: Vec::new(),
                children: Vec::new(),
                events: Vec::new(),
                exclusive_time: 0,
                inclusive_time: 0,
                child_count: 0,
            },
        );
        proof {
            let want = old(self)@.add_span(parent, ts, target@, name@, attrs_view(values@));
            assert(self.spans.len() == old(self).spans.len() + 1);
            assert(self@.spans.len() == want.spans.len());
            assert forall|i: int| 0 <= i < want.spans.len() implies self@.spans[i] == want.spans[i] by {
                if i < old(self).spans.len() {
                    assert(old(self)@.spans[i] == old(self).spans@[i]@);
                    if parent == Some(i as usize) {
                        assert(self.spans@[i].children@ =~= old(self).spans@[i].children@.push(id));
                    } else {
                        assert(self.spans@[i] == old(self).spans@[i]);
                    }
                } else {
                    assert(self.spans@[i].self_time@ =~= Seq::empty());
                    assert(self.spans@[i].children@ =~= Seq::empty());
                    assert(events_view(self.spans@[i].events@) =~= Seq::empty());
                }
            }
            assert(self@.spans =~= want.spans);
            lemma_add_span_wf(old(self)@, parent, ts, target@, name@, attrs_view(values@));
        }
        id
    }

    /// Appends the interval `(start, end)` to the self time of span `id`,
    /// and puts `id` into `outdated`.
    pub fn add_self_time(
        &mut self,
        id: SpanId,
        start: u64,
        end: u64,
        outdated: &mut HashSet<SpanId>,
    )
        requires
            old(self)@.wf(),
            old(self)@.contains(id),
        ensures
            final(self)@ == old(self)@.add_self_time(id, start, end),
            final(self)@.wf(),
            final(outdated)@ == old(outdated)@.insert(id),
    {
        self.spans[id].self_time.push((start, end));
        outdated.insert(id);
        proof {
            assert(self@.spans =~= old(self)@.add_self_time(id, start, end).spans);
            lemma_same_links_wf(old(self)@, self@);
        }
    }

    /// Attaches an event to `parent`, or to the store when there is no
    /// parent.
    pub fn add_event(&mut self, parent: Option<SpanId>, ts: u64, values: Vec<(String, SpanValue)>)
        requires
            old(self)@.wf(),
            old(self)@.contains_opt(parent),
        ensures
            final(self)@ == old(self)@.add_event(parent, ts, attrs_view(values@)),
            final(self)@.wf(),
    {
        let event = SpanEvent { ts, values };
        match parent {
            Some(p) => {
                self.spans[p].events.push(event);
            },
            None => {
                self.root_events.push(event);
            },
        }
        proof {
            let want = old(self)@.add_event(parent, ts, attrs_view(values@));
            assert(self@.spans.len() == want.spans.len());
            assert forall|i: int| 0 <= i < want.spans.len() implies self@.spans[i] == want.spans[i] by {
                assert(old(self)@.spans[i] == old(self).spans@[i]@);
                if parent == Some(i as usize) {
                    assert(self.spans@[i].events@ == old(self).spans@[i].events@.push(event));
                    assert(events_view(self.spans@[i].events@) =~= events_view(
                        old(self).spans@[i].events@,
                    ).push(event@));
                } else {
                    assert(self.spans@[i] == old(self).spans@[i]);
                }
            }
            assert(self@.spans =~= want.spans);
            assert(self@.root_events =~= want.root_events);
            lemma_same_links_wf(old(self)@, self@);
        }
    }

    /// Recomputes the cached aggregates of span `id` from its intervals and
    /// from what its children cache.
    fn refresh(&mut self, id: SpanId)
        requires
            old(self)@.wf(),
            old(self)@.contains(id),
        ensures
            final(self)@ == old(self)@.refresh_span(id),
    {
        let ghost model = self@;
        let ghost intervals = self.spans@[id as int].self_time@;
        let ghost children = self.spans@[id as int].children@;
        assert(model.spans[id as int] == self.spans@[id as int]@);
        let mut exclusive: u64 = 0;
        let mut k: usize = 0;
        while k < self.spans[id].self_time.len()
            invariant
                id < self.spans.len(),
                self.spans@[id as int].self_time@ == intervals,
                k <= intervals.len(),
                exclusive == clamp(intervals_total(intervals.subrange(0, k as int))),
            decreases intervals.len() - k,
        {
            let (start, end) = self.spans[id].self_time[k];
            proof {
                lemma_intervals_total_step(intervals, k as int);
            }
            if end >= start {
                exclusive = exclusive.saturating_add(end - start);
            }
            k += 1;
        }
        assert(intervals.subrange(0, k as int) =~= intervals);
        let mut inclusive: u64 = exclusive;
        let mut k: usize = 0;
        while k < self.spans[id].children.len()
            invariant
                id < self.spans.len(),
                self@ == model,
                model.wf(),
                model.spans[id as int].children == children,
                self.spans@[id as int].children@ == children,
                k <= children.len(),
                inclusive == clamp(
                    intervals_total(intervals) + model.cached_inclusive_sum(
                        children.subrange(0, k as int),
                    ),
                ),
            decreases children.len() - k,
        {
            let child = self.spans[id].children[k];
            proof {
                assert(model.spans[id as int].children[k as int] == child);
                model.lemma_cached_inclusive_sum_step(children, k as int);
                assert(model.spans[child as int] == self.spans@[child as int]@);
            }
            inclusive = inclusive.saturating_add(self.spans[child].inclusive_time);
            k += 1;
        }
        assert(children.subrange(0, k as int) =~= children);
        let child_count = self.spans[id].children.len();
        self.spans[id].exclusive_time = exclusive;
        self.spans[id].inclusive_time = inclusive;
        self.spans[id].child_count = child_count;
        proof {
            let want = model.refresh_span(id);
            assert(self@.spans.len() == want.spans.len());
            assert forall|i: int| 0 <= i < want.spans.len() implies self@.spans[i] == want.spans[i] by {
                assert(model.spans[i] == old(self).spans@[i]@);
            }
            assert(self@.spans =~= want.spans);
        }
    }

    /// Whether one of the children of `id` is flagged in `stale`.
    fn has_stale_child(&self, id: SpanId, stale: &Vec<bool>) -> (found: bool)
        requires
            self@.wf(),
            self@.contains(id),
            stale.len() == self@.spans.len(),
        ensures
            found == exists|k: int|
                0 <= k < self@.spans[id as int].children.len() && #[trigger] stale[self@.spans[id as int].children[k] as int],
    {
        let ghost children = self.spans@[id as int].children@;
        assert(self@.spans[id as int] == self.spans@[id as int]@);
        let mut k: usize = 0;
        while k < self.spans[id].children.len()
            invariant
                id < self.spans.len(),
                self@.wf(),
                self@.spans[id as int].children == children,
                self.spans@[id as int].children@ == children,
                stale.len() == self@.spans.len(),
                k <= children.len(),
                forall|l: int| 0 <= l < k ==> !#[trigger] stale[children[l] as int],
            decreases children.len() - k,
        {
            let child = self.spans[id].children[k];
            assert(self@.spans[id as int].children[k as int] == child);
            if stale[child] {
                return true;
            }
            k += 1;
        }
        false
    }

    /// Recomputes the cached aggregates of every span in `outdated` and of
    /// every ancestor of such a span, children before their parents. Ids in
    /// `outdated` that name no span are ignored.
    pub fn invalidate_outdated_spans(&mut self, outdated: &HashSet<SpanId>)
        requires
            old(self)@.wf(),
        ensures
            final(self)@ == old(self)@.invalidate(outdated@),
            final(self)@.wf(),
            final(self)@.spans.len() == old(self)@.spans.len(),
            final(self)@.roots == old(self)@.roots,
            final(self)@.generation == old(self)@.generation,
    {
        let ghost before = self@;
        let n = self.spans.len();
        let mut stale: Vec<bool> = Vec::new();
        let mut i: usize = 0;
        while i < n
            invariant
                i <= n,
                stale.len() == i,
            decreases n - i,
        {
            stale.push(false);
            i += 1;
        }
        while i > 0
            invariant
                i <= n,
                n == before.spans.len(),
                stale.len() == n,
                before.wf(),
                self@.wf(),
                self@ == before.refresh_from(outdated@, i as nat),
                forall|j: int| i <= j < n ==> stale[j] == before.is_stale(outdated@, j as usize),
            decreases i,
        {
            i -= 1;
            proof {
                before.lemma_refresh_from_keeps(outdated@, (i + 1) as nat);
                before.lemma_stale_step(outdated@, i);
                assert(self@.spans[i as int].children == before.spans[i as int].children);
            }
            let dirty = outdated.contains(&i) || self.has_stale_child(i, &stale);
            proof {
                if dirty && !outdated@.contains(i) {
                    let k = choose|k: int|
                        0 <= k < before.spans[i as int].children.len() && #[trigger] stale[before.spans[i as int].children[k] as int];
                    assert(before.is_stale(outdated@, before.spans[i as int].children[k]));
                }
                if before.is_stale(outdated@, i) && !outdated@.contains(i) {
                    let k = choose|k: int|
                        0 <= k < before.spans[i as int].children.len() && #[trigger] before.is_stale(
                            outdated@,
                            before.spans[i as int].children[k],
                        );
                    assert(stale[before.spans[i as int].children[k] as int]);
                }
                assert(dirty == before.is_stale(outdated@, i));
            }
            if dirty {
                self.refresh(i);
            }
            stale[i] = dirty;
            proof {
                before.lemma_refresh_from_keeps(outdated@, i as nat);
                lemma_same_links_wf(before, self@);
            }
        }
        proof {
            before.lemma_refresh_from_keeps(outdated@, 0);
        }
    }

    /// Discards every span and event and moves on to the next generation.
    pub fn reset(&mut self)
        requires
            old(self)@.generation < u64::MAX,
        ensures
            final(self)@ == old(self)@.reset(),
            final(self)@.generation > old(self)@.generation,
            final(self)@.spans.len() == 0,
            final(self)@.wf(),
    {
        self.spans = Vec::new();
        self.roots = Vec::new();
        self.root_events = Vec::new();
        self.generation = self.generation + 1;
        proof {
            assert(self@.spans =~= Seq::empty());
            assert(self@.root_events =~= Seq::empty());
        }
    }
}

} // verus!
