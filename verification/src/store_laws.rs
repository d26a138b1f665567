//! What holds of the store's aggregates, whatever the spans are.

use vstd::prelude::*;
use crate::span::{clamp, intervals_total, SpanId, SpanModel};
use crate::store::StoreModel;

verus! {

impl StoreModel {
    /// Every span caches what it should.
    pub open spec fn all_fresh(self) -> bool {
        forall|i: int| 0 <= i < self.spans.len() ==> #[trigger] self.is_fresh(i as usize)
    }

    proof fn lemma_refresh_nothing(self, from: nat)
        ensures
            self.refresh_from(Set::empty(), from) == self,
        decreases self.spans.len() - from,
    {
        if from < self.spans.len() {
            self.lemma_refresh_nothing(from + 1);
            assert(!self.is_stale(Set::empty(), from as usize));
        }
    }

    /// Recomputing the aggregates when no span is outdated changes nothing.
    pub proof fn lemma_invalidate_nothing(self)
        ensures
            self.invalidate(Set::empty()) == self,
    {
        self.lemma_refresh_nothing(0);
    }

    /// Recomputing the aggregates of the spans younger than `j` does not
    /// touch span `j`.
    proof fn lemma_refresh_from_settled(self, outdated: Set<SpanId>, from: nat, j: nat)
        requires
            self.spans.len() <= usize::MAX,
            from <= j < self.spans.len(),
        ensures
            self.refresh_from(outdated, from).spans[j as int] == self.refresh_from(
                outdated,
                j,
            ).spans[j as int],
        decreases j - from,
    {
        if from < j {
            self.lemma_refresh_from_settled(outdated, from + 1, j);
            self.lemma_refresh_from_keeps(outdated, from + 1);
        }
    }

    /// Two stores in which the children cache the same inclusive times give
    /// the same sum.
    pub proof fn lemma_same_caches_same_sum(self, other: StoreModel, children: Seq<SpanId>)
        requires
            forall|k: int|
                0 <= k < children.len() ==> self.contains(#[trigger] children[k]) == other.contains(
                    children[k],
                ) && (self.contains(children[k]) ==> self.spans[children[k] as int].inclusive_time
                    == other.spans[children[k] as int].inclusive_time),
        ensures
            self.cached_inclusive_sum(children) == other.cached_inclusive_sum(children),
        decreases children.len(),
    {
        if children.len() > 0 {
            let front = children.drop_last();
            assert forall|k: int| 0 <= k < front.len() implies self.contains(#[trigger] front[k])
                == other.contains(front[k]) && (self.contains(front[k])
                ==> self.spans[front[k] as int].inclusive_time
                == other.spans[front[k] as int].inclusive_time) by {
                assert(front[k] == children[k]);
            }
            self.lemma_same_caches_same_sum(other, front);
            assert(children.last() == children[children.len() - 1]);
        }
    }

    /// After the aggregates were recomputed, every stale span caches what it
    /// should, and every other span is as it was.
    pub proof fn lemma_invalidate_refreshes(self, outdated: Set<SpanId>)
        requires
            self.wf(),
        ensures
            forall|i: int|
                0 <= i < self.spans.len() && self.is_stale(outdated, i as usize)
                    ==> #[trigger] self.invalidate(outdated).is_fresh(i as usize),
            forall|i: int|
                0 <= i < self.spans.len() && !self.is_stale(outdated, i as usize)
                    ==> #[trigger] self.invalidate(outdated).spans[i] == self.spans[i],
    {
        let done = self.invalidate(outdated);
        self.lemma_refresh_from_keeps(outdated, 0);
        assert forall|i: int|
            0 <= i < self.spans.len() && self.is_stale(outdated, i as usize) implies #[trigger] done.is_fresh(
            i as usize,
        ) by {
            let above = self.refresh_from(outdated, (i + 1) as nat);
            self.lemma_refresh_from_settled(outdated, 0, i as nat);
            self.lemma_refresh_from_keeps(outdated, (i + 1) as nat);
            let children = self.spans[i].children;
            assert forall|k: int| 0 <= k < children.len() implies done.contains(
                #[trigger] children[k],
            ) == above.contains(children[k]) && (done.contains(children[k])
                ==> done.spans[children[k] as int].inclusive_time
                == above.spans[children[k] as int].inclusive_time) by {
                let c = self.spans[i].children[k];
                self.lemma_refresh_from_settled(outdated, 0, c as nat);
                self.lemma_refresh_from_settled(outdated, (i + 1) as nat, c as nat);
            }
            done.lemma_same_caches_same_sum(above, children);
            assert(done.spans[i] == above.refreshed_span(i as usize));
            assert(done.refreshed_span(i as usize) == above.refreshed_span(i as usize));
        }
        assert forall|i: int|
            0 <= i < self.spans.len() && !self.is_stale(outdated, i as usize) implies #[trigger] done.spans[i]
            == self.spans[i] by {
            self.lemma_refresh_from_settled(outdated, 0, i as nat);
            self.lemma_refresh_from_keeps(outdated, (i + 1) as nat);
        }
    }

    /// Whether one span is an ancestor of another depends on the parents
    /// alone.
    pub proof fn lemma_same_parents_same_ancestors(self, other: StoreModel, a: SpanId, d: SpanId)
        requires
            self.spans.len() <= other.spans.len(),
            d < self.spans.len(),
            forall|i: int|
                0 <= i < self.spans.len() ==> (#[trigger] self.spans[i]).parent
                    == other.spans[i].parent,
        ensures
            self.is_ancestor_or_self(a, d) == other.is_ancestor_or_self(a, d),
        decreases d,
    {
        if a != d {
            assert(self.spans[d as int].parent == other.spans[d as int].parent);
            if let Some(p) = self.spans[d as int].parent {
                if p < d {
                    self.lemma_same_parents_same_ancestors(other, a, p);
                }
            }
        }
    }

    proof fn lemma_refresh_fresh_is_identity(self, outdated: Set<SpanId>, from: nat)
        requires
            self.spans.len() <= usize::MAX,
            forall|i: int|
                from <= i < self.spans.len() && self.is_stale(outdated, i as usize)
                    ==> #[trigger] self.is_fresh(i as usize),
        ensures
            self.refresh_from(outdated, from) == self,
        decreases self.spans.len() - from,
    {
        if from < self.spans.len() {
            self.lemma_refresh_fresh_is_identity(outdated, from + 1);
            if self.is_stale(outdated, from as usize) {
                assert(self.is_fresh(from as usize));
                assert(self.spans.update(from as int, self.refreshed_span(from as usize))
                    =~= self.spans);
            }
        }
    }

    /// Recomputing the aggregates a second time changes nothing.
    pub proof fn lemma_invalidate_idempotent(self, outdated: Set<SpanId>)
        requires
            self.wf(),
        ensures
            self.invalidate(outdated).invalidate(outdated) == self.invalidate(outdated),
    {
        let done = self.invalidate(outdated);
        self.lemma_refresh_from_keeps(outdated, 0);
        self.lemma_invalidate_refreshes(outdated);
        assert forall|i: int|
            0 <= i < done.spans.len() && done.is_stale(outdated, i as usize) implies #[trigger] done.is_fresh(
            i as usize,
        ) by {
            let d = choose|d: SpanId|
                outdated.contains(d) && done.contains(d) && #[trigger] done.is_ancestor_or_self(
                    i as usize,
                    d,
                );
            assert forall|j: int| 0 <= j < self.spans.len() implies (#[trigger] self.spans[j]).parent
                == done.spans[j].parent by {}
            self.lemma_same_parents_same_ancestors(done, i as usize, d);
            assert(self.is_stale(outdated, i as usize));
        }
        done.lemma_refresh_fresh_is_identity(outdated, 0);
    }

    /// A span is never older than its ancestors: it was created after them.
    pub proof fn lemma_ancestor_is_older(self, a: SpanId, d: SpanId)
        requires
            self.is_ancestor_or_self(a, d),
        ensures
            a <= d,
        decreases d,
    {
        if a != d {
            self.lemma_ancestor_is_older(a, self.spans[d as int].parent->Some_0);
        }
    }

    /// A reset leaves an empty store in the next generation.
    pub proof fn lemma_reset_is_clean(self)
        requires
            self.generation < u64::MAX,
        ensures
            self.reset().generation > self.generation,
            self.reset().spans.len() == 0,
            self.reset().roots.len() == 0,
            self.reset().root_events.len() == 0,
            self.reset().wf(),
            forall|id: SpanId| !self.reset().contains(id),
    {
    }

    /// A new span gets an id that is larger than the id of every span that
    /// is there already, and the spans that are there already keep theirs.
    pub proof fn lemma_new_id_is_largest(
        self,
        parent: Option<SpanId>,
        ts: u64,
        target: Seq<char>,
        name: Seq<char>,
        values: Seq<(Seq<char>, crate::span::AttrModel)>,
    )
        requires
            self.spans.len() < usize::MAX,
            self.contains_opt(parent),
        ensures
            forall|id: SpanId| self.contains(id) ==> id < self.spans.len(),
            self.add_span(parent, ts, target, name, values).spans.len() == self.spans.len() + 1,
            self.add_span(parent, ts, target, name, values).spans[self.spans.len() as int].name
                == name,
            forall|id: SpanId| #[trigger]
                self.contains(id) ==> {
                    let after = self.add_span(parent, ts, target, name, values);
                    &&& after.spans[id as int].name == self.spans[id as int].name
                    &&& after.spans[id as int].target == self.spans[id as int].target
                    &&& after.spans[id as int].start == self.spans[id as int].start
                    &&& after.spans[id as int].parent == self.spans[id as int].parent
                },
    {
    }

    /// The time that span `id` covers: its own self time and the time that
    /// its children cover.
    pub open spec fn inclusive_total(self, id: SpanId) -> nat
        decreases self.spans.len() - id, 1nat, 0nat,
    {
        if id < self.spans.len() {
            intervals_total(self.spans[id as int].self_time) + self.children_total(
                id,
                self.spans[id as int].children.len(),
            )
        } else {
            0
        }
    }

    /// The time that the first `count` children of span `id` cover.
    pub open spec fn children_total(self, id: SpanId, count: nat) -> nat
        decreases self.spans.len() - id, 0nat, count,
    {
        if id < self.spans.len() && 0 < count <= self.spans[id as int].children.len() {
            let child = self.spans[id as int].children[count - 1];
            self.children_total(id, (count - 1) as nat) + if id < child < self.spans.len() {
                self.inclusive_total(child)
            } else {
                0
            }
        } else {
            0
        }
    }

    /// Where every span caches what it should, the cached times are the true
    /// ones, as far as 64 bits hold them: the exclusive time is the total of
    /// the span's intervals, and the inclusive time is that plus the true
    /// inclusive times of all its children.
    pub proof fn lemma_fresh_is_exact(self, id: SpanId)
        requires
            self.wf(),
            self.all_fresh(),
            self.contains(id),
        ensures
            self.spans[id as int].exclusive_time == clamp(
                intervals_total(self.spans[id as int].self_time),
            ),
            self.spans[id as int].inclusive_time == clamp(self.inclusive_total(id)),
            self.spans[id as int].child_count == self.spans[id as int].children.len(),
        decreases self.spans.len() - id, 1nat, 0nat,
    {
        assert(self.is_fresh(id));
        let children = self.spans[id as int].children;
        if children.len() > 0 {
            self.lemma_child_is_younger(id, children.len() - 1);
        }
        self.lemma_children_are_exact(id, children.len());
        assert(children.subrange(0, children.len() as int) =~= children);
    }

    /// The child at position `k` of a span is younger than the span by more
    /// than `k`.
    proof fn lemma_child_is_younger(self, id: SpanId, k: int)
        requires
            self.wf(),
            self.contains(id),
            0 <= k < self.spans[id as int].children.len(),
        ensures
            self.spans[id as int].children[k] > id + k,
        decreases k,
    {
        if k > 0 {
            self.lemma_child_is_younger(id, k - 1);
            assert(self.spans[id as int].children[k - 1] < self.spans[id as int].children[k]);
        }
    }

    proof fn lemma_children_are_exact(self, id: SpanId, count: nat)
        requires
            self.wf(),
            self.all_fresh(),
            self.contains(id),
            count <= self.spans[id as int].children.len(),
        ensures
            ({
                let cached = self.cached_inclusive_sum(
                    self.spans[id as int].children.subrange(0, count as int),
                );
                let total = self.children_total(id, count);
                cached <= total && (cached == total || cached >= u64::MAX)
            }),
        decreases self.spans.len() - id, 0nat, count,
    {
        let children = self.spans[id as int].children;
        if count > 0 {
            let child = children[count - 1];
            self.lemma_children_are_exact(id, (count - 1) as nat);
            self.lemma_fresh_is_exact(child);
            assert(children.subrange(0, count as int).drop_last() =~= children.subrange(
                0,
                count - 1,
            ));
        }
    }

    /// Whether this store and `other` hold the same spans with the same
    /// intervals and children, whatever each of them caches.
    pub open spec fn same_but_caches(self, other: StoreModel) -> bool {
        &&& self.spans.len() == other.spans.len()
        &&& forall|i: int|
            0 <= i < self.spans.len() ==> (#[trigger] other.spans[i]) == (SpanModel {
                exclusive_time: other.spans[i].exclusive_time,
                inclusive_time: other.spans[i].inclusive_time,
                child_count: other.spans[i].child_count,
                ..self.spans[i]
            })
    }

    proof fn lemma_same_totals(self, other: StoreModel, id: SpanId)
        requires
            self.same_but_caches(other),
        ensures
            self.inclusive_total(id) == other.inclusive_total(id),
        decreases self.spans.len() - id, 1nat, 0nat,
    {
        if id < self.spans.len() {
            assert(other.spans[id as int].self_time == self.spans[id as int].self_time);
            assert(other.spans[id as int].children == self.spans[id as int].children);
            self.lemma_same_children_totals(other, id, self.spans[id as int].children.len());
        }
    }

    proof fn lemma_same_children_totals(self, other: StoreModel, id: SpanId, count: nat)
        requires
            self.same_but_caches(other),
        ensures
            self.children_total(id, count) == other.children_total(id, count),
        decreases self.spans.len() - id, 0nat, count,
    {
        if id < self.spans.len() {
            assert(other.spans[id as int].children == self.spans[id as int].children);
            if 0 < count <= self.spans[id as int].children.len() {
                let child = self.spans[id as int].children[count - 1];
                self.lemma_same_children_totals(other, id, (count - 1) as nat);
                if id < child < self.spans.len() {
                    self.lemma_same_totals(other, child);
                }
            }
        }
    }

    /// What the spans cache when all cache what they should is decided by
    /// their intervals and children alone: it does not depend on when, or in
    /// how many batches, the aggregates were recomputed.
    pub proof fn lemma_fresh_is_determined(self, other: StoreModel)
        requires
            self.wf(),
            other.wf(),
            self.all_fresh(),
            other.all_fresh(),
            self.same_but_caches(other),
        ensures
            self.spans == other.spans,
    {
        assert forall|i: int| 0 <= i < self.spans.len() implies self.spans[i] == other.spans[i] by {
            self.lemma_fresh_is_exact(i as usize);
            other.lemma_fresh_is_exact(i as usize);
            self.lemma_same_totals(other, i as usize);
            assert(other.spans[i].self_time == self.spans[i].self_time);
            assert(other.spans[i].children == self.spans[i].children);
        }
        assert(self.spans =~= other.spans);
    }

    /// A span that is stale stays so when spans are added and parents stay.
    pub proof fn lemma_stale_stays(
        self,
        later: StoreModel,
        fewer: Set<SpanId>,
        more: Set<SpanId>,
        id: SpanId,
    )
        requires
            self.spans.len() <= later.spans.len(),
            forall|i: int|
                0 <= i < self.spans.len() ==> (#[trigger] self.spans[i]).parent
                    == later.spans[i].parent,
            fewer.subset_of(more),
            self.is_stale(fewer, id),
        ensures
            later.is_stale(more, id),
    {
        let d = choose|d: SpanId|
            fewer.contains(d) && self.contains(d) && #[trigger] self.is_ancestor_or_self(id, d);
        self.lemma_same_parents_same_ancestors(later, id, d);
        assert(more.contains(d));
        assert(later.is_ancestor_or_self(id, d));
    }

    /// A span that caches what it should still does so in a later store in
    /// which it is the same and its children cache what they did.
    pub proof fn lemma_fresh_stays(self, later: StoreModel, id: SpanId)
        requires
            self.wf(),
            self.contains(id),
            self.is_fresh(id),
            self.spans.len() <= later.spans.len(),
            later.spans[id as int].self_time == self.spans[id as int].self_time,
            later.spans[id as int].children == self.spans[id as int].children,
            later.spans[id as int].exclusive_time == self.spans[id as int].exclusive_time,
            later.spans[id as int].inclusive_time == self.spans[id as int].inclusive_time,
            later.spans[id as int].child_count == self.spans[id as int].child_count,
            forall|k: int|
                0 <= k < self.spans[id as int].children.len()
                    ==> later.spans[#[trigger] self.spans[id as int].children[k] as int].inclusive_time
                    == self.spans[self.spans[id as int].children[k] as int].inclusive_time,
        ensures
            later.is_fresh(id),
    {
        let children = self.spans[id as int].children;
        assert forall|k: int| 0 <= k < children.len() implies self.contains(#[trigger] children[k])
            == later.contains(children[k]) && (self.contains(children[k])
            ==> self.spans[children[k] as int].inclusive_time
            == later.spans[children[k] as int].inclusive_time) by {
            assert(self.spans[id as int].children[k] < self.spans.len());
        }
        self.lemma_same_caches_same_sum(later, children);
    }
}

} // verus!
