use crate::model::counting::{
    below, lemma_distinct_bounded, lemma_distinct_ints, lemma_push_contains, lemma_push_distinct,
};
use crate::model::paths::lemma_occurrences_prefix;
use crate::model::topology::{occurrences, Topology};
use vstd::prelude::*;

verus! {

/// Number of positions of `s` whose value does not occur in `done`.
pub open spec fn pending(s: Seq<usize>, done: Seq<usize>) -> nat
    decreases s.len(),
{
    if s.len() == 0 {
        0
    } else {
        pending(s.drop_last(), done) + if done.contains(s.last()) {
            0nat
        } else {
            1nat
        }
    }
}

/// Before anything is done, every position is pending.
pub proof fn lemma_pending_all(s: Seq<usize>)
    ensures
        pending(s, Seq::empty()) == s.len(),
    decreases s.len(),
{
    if s.len() > 0 {
        lemma_pending_all(s.drop_last());
    }
}

/// Marking one more value as done takes its copies out of the pending ones.
pub proof fn lemma_pending_push(s: Seq<usize>, done: Seq<usize>, u: usize)
    requires
        !done.contains(u),
    ensures
        pending(s, done.push(u)) + occurrences(s, u as int) == pending(s, done),
    decreases s.len(),
{
    if s.len() > 0 {
        lemma_pending_push(s.drop_last(), done, u);
        lemma_push_contains(done, u, s.last());
    }
}

/// With nothing pending, every value of the list is done; otherwise some
/// value of the list is not.
pub proof fn lemma_pending_zero(s: Seq<usize>, done: Seq<usize>)
    ensures
        pending(s, done) == 0 ==> forall|j: int| 0 <= j < s.len()
            ==> done.contains(#[trigger] s[j]),
        pending(s, done) > 0 ==> exists|j: int| 0 <= j < s.len() && !done.contains(#[trigger] s[j]),
    decreases s.len(),
{
    if s.len() > 0 {
        let front = s.drop_last();
        lemma_pending_zero(front, done);
        if pending(s, done) == 0 {
            assert forall|j: int| 0 <= j < s.len() implies done.contains(#[trigger] s[j]) by {
                if j < front.len() {
                    assert(front[j] == s[j]);
                }
            }
        } else {
            if !done.contains(s.last()) {
                assert(!done.contains(s[s.len() - 1]));
            } else {
                let j = choose|j: int| 0 <= j < front.len() && !done.contains(#[trigger] front[j]);
                assert(!done.contains(s[j]));
            }
        }
    }
}

/// `x` stands at a position of `order` before `i`.
pub open spec fn placed_before(order: Seq<usize>, i: int, x: usize) -> bool {
    exists|k: int| 0 <= k < i && #[trigger] order[k] == x
}

/// Every source of an edge into a listed vertex is listed before it.
pub open spec fn sources_first(t: Topology, order: Seq<usize>) -> bool {
    forall|i: int, j: int|
        0 <= i < order.len() && 0 <= j < t.pred(order[i] as int).len() ==> placed_before(
            order,
            i,
            #[trigger] t.pred(order[i] as int)[j],
        )
}

/// The state of a sweep that emits vertices whose sources have all been
/// emitted: the remaining in-degree of every vertex, the vertices emitted
/// so far, and those waiting to be emitted.
pub struct Sweep {
    pub counts: Seq<int>,
    pub sorted: Seq<usize>,
    pub queue: Seq<usize>,
}

impl Sweep {
    /// Everything emitted or waiting, in the order in which it was queued.
    pub open spec fn placed(self) -> Seq<usize> {
        self.sorted + self.queue
    }

    /// What holds whenever no vertex is half processed.
    pub open spec fn steady(self, t: Topology) -> bool {
        &&& self.counts.len() == t.len()
        &&& self.placed().no_duplicates()
        &&& below(self.placed(), t.len())
        &&& forall|v: int|
            0 <= v < t.len() ==> #[trigger] self.counts[v] == pending(t.pred(v), self.sorted)
        &&& forall|v: usize|
            v < t.len() ==> (self.counts[v as int] == 0 <==> #[trigger] self.placed().contains(v))
        &&& sources_first(t, self.sorted)
    }

    /// What holds while the first `e` out-edges of the vertex emitted last
    /// have been taken off the counts.
    pub open spec fn draining(self, t: Topology, e: int) -> bool {
        &&& self.counts.len() == t.len()
        &&& self.sorted.len() > 0
        &&& 0 <= e <= t.succ(self.sorted.last() as int).len()
        &&& self.placed().no_duplicates()
        &&& below(self.placed(), t.len())
        &&& forall|v: int|
            0 <= v < t.len() ==> #[trigger] self.counts[v] == pending(
                t.pred(v),
                self.sorted.drop_last(),
            ) - occurrences(t.succ(self.sorted.last() as int).subrange(0, e), v)
        &&& forall|v: usize|
            v < t.len() ==> (self.counts[v as int] == 0 <==> #[trigger] self.placed().contains(v))
        &&& sources_first(t, self.sorted)
    }

    /// The state after the head of the queue was emitted.
    pub open spec fn take(self) -> Sweep {
        Sweep {
            sorted: self.sorted.push(self.queue[0]),
            queue: self.queue.subrange(1, self.queue.len() as int),
            ..self
        }
    }

    /// The state after one more edge into `v` was taken off.
    pub open spec fn relax(self, v: usize) -> Sweep {
        let left = self.counts[v as int] - 1;
        Sweep {
            counts: self.counts.update(v as int, left),
            queue: if left == 0 {
                self.queue.push(v)
            } else {
                self.queue
            },
            ..self
        }
    }

    /// At the start the counts are the in-degrees and the queue holds the
    /// vertices without incoming edge.
    pub proof fn lemma_begin(self, t: Topology)
        requires
            t.wf(),
            self.counts.len() == t.len(),
            self.sorted.len() == 0,
            self.queue.no_duplicates(),
            below(self.queue, t.len()),
            forall|v: int| 0 <= v < t.len() ==> #[trigger] self.counts[v] == t.pred(v).len(),
            forall|v: usize|
                v < t.len() ==> (self.counts[v as int] == 0 <==> #[trigger] self.queue.contains(v)),
        ensures
            self.steady(t),
    {
        assert(self.placed() =~= self.queue);
        assert(self.sorted =~= Seq::empty());
        assert forall|v: int| 0 <= v < t.len() implies #[trigger] self.counts[v] == pending(
            t.pred(v),
            self.sorted,
        ) by {
            lemma_pending_all(t.pred(v));
        }
    }

    /// No more vertices are emitted or waiting than the graph has.
    pub proof fn lemma_bounded(self, t: Topology)
        requires
            self.steady(t),
        ensures
            self.sorted.len() + self.queue.len() <= t.len(),
    {
        lemma_distinct_bounded(self.placed(), t.len());
    }

    /// Emitting the head of the queue starts the processing of its edges.
    pub proof fn lemma_take(self, t: Topology)
        requires
            t.wf(),
            self.steady(t),
            self.queue.len() > 0,
        ensures
            self.take().draining(t, 0),
            self.take().sorted.last() == self.queue[0],
            self.queue[0] < t.len(),
    {
        let next = self.take();
        let u = self.queue[0];
        assert(next.placed() =~= self.placed());
        assert(self.placed()[self.sorted.len() as int] == u);
        assert(self.placed().contains(u));
        assert(next.sorted.drop_last() =~= self.sorted);
        assert(t.succ(u as int).subrange(0, 0) =~= Seq::<usize>::empty());
        assert(self.counts[u as int] == 0);
        lemma_pending_zero(t.pred(u as int), self.sorted);
        assert forall|i: int, j: int|
            0 <= i < next.sorted.len() && 0 <= j < t.pred(
                next.sorted[i] as int,
            ).len() implies placed_before(
            next.sorted,
            i,
            #[trigger] t.pred(next.sorted[i] as int)[j],
        ) by {
            let x = t.pred(next.sorted[i] as int)[j];
            if i < self.sorted.len() {
                assert(placed_before(self.sorted, i, t.pred(self.sorted[i] as int)[j]));
                let k = choose|k: int| 0 <= k < i && #[trigger] self.sorted[k] == x;
                assert(next.sorted[k] == x);
            } else {
                assert(self.sorted.contains(t.pred(u as int)[j]));
                let k = choose|k: int| 0 <= k < self.sorted.len() && self.sorted[k] == x;
                assert(next.sorted[k] == x);
            }
        }
    }

    /// Taking off one more edge of the vertex emitted last: the count of
    /// its target was positive, and the target is queued when it drops to 0.
    pub proof fn lemma_relax(self, t: Topology, e: int)
        requires
            t.wf(),
            self.draining(t, e),
            e < t.succ(self.sorted.last() as int).len(),
        ensures
            t.succ(self.sorted.last() as int)[e] < t.len(),
            self.counts[t.succ(self.sorted.last() as int)[e] as int] >= 1,
            self.relax(t.succ(self.sorted.last() as int)[e]).draining(t, e + 1),
    {
        let u = self.sorted.last();
        let done = self.sorted.drop_last();
        let targets = t.succ(u as int);
        let v = targets[e];
        let next = self.relax(v);
        assert(self.placed()[self.sorted.len() - 1] == u);
        assert(t.has_vertex(u as int));
        assert(t.has_vertex(t.succ(u as int)[e] as int));
        assert(!done.contains(u)) by {
            if done.contains(u) {
                let k = choose|k: int| 0 <= k < done.len() && done[k] == u;
                assert(self.placed()[k] == u);
            }
        }
        assert forall|w: int| 0 <= w < t.len() implies #[trigger] next.counts[w] == pending(
            t.pred(w),
            done,
        ) - occurrences(targets.subrange(0, e + 1), w) by {
            lemma_occurrences_prefix(targets, e, w);
        }
        lemma_occurrences_prefix(targets, e, v as int);
        lemma_occurrences_prefix(targets, e + 1, v as int);
        lemma_pending_push(t.pred(v as int), done, u);
        assert(occurrences(targets, v as int) == occurrences(t.pred(v as int), u as int));
        assert(self.counts[v as int] >= 1);
        assert(!self.placed().contains(v));
        if next.counts[v as int] == 0 {
            assert(next.placed() =~= self.placed().push(v));
            lemma_push_distinct(self.placed(), v);
            assert forall|w: usize| w < t.len() implies (next.counts[w as int] == 0
                <==> #[trigger] next.placed().contains(w)) by {
                lemma_push_contains(self.placed(), v, w);
            }
        } else {
            assert(next.placed() =~= self.placed());
        }
    }

    /// Once every edge of the vertex emitted last is taken off, no vertex
    /// is half processed.
    pub proof fn lemma_settle(self, t: Topology)
        requires
            t.wf(),
            self.draining(t, t.succ(self.sorted.last() as int).len() as int),
        ensures
            self.steady(t),
    {
        let u = self.sorted.last();
        let done = self.sorted.drop_last();
        let targets = t.succ(u as int);
        assert(self.placed()[self.sorted.len() - 1] == u);
        assert(targets.subrange(0, targets.len() as int) =~= targets);
        assert(done.push(u) =~= self.sorted);
        assert(!done.contains(u)) by {
            if done.contains(u) {
                let k = choose|k: int| 0 <= k < done.len() && done[k] == u;
                assert(self.placed()[k] == u);
            }
        }
        assert forall|v: int| 0 <= v < t.len() implies #[trigger] self.counts[v] == pending(
            t.pred(v),
            self.sorted,
        ) by {
            lemma_pending_push(t.pred(v), done, u);
            assert(occurrences(targets, v) == occurrences(t.pred(v), u as int));
        }
    }

    /// A sweep that has emitted every vertex has emitted a topological
    /// order.
    pub proof fn lemma_complete(self, t: Topology)
        requires
            t.wf(),
            self.steady(t),
            self.sorted.len() == t.len(),
        ensures
            t.is_topological_order(self.sorted),
    {
        let order = self.sorted;
        assert forall|i: int, j: int| 0 <= i < order.len() && 0 <= j < order.len()
            && i != j implies order[i] != order[j] by {
            assert(self.placed()[i] == order[i]);
            assert(self.placed()[j] == order[j]);
        }
        assert forall|i: int| 0 <= i < order.len()
            implies t.has_vertex(#[trigger] order[i] as int) by {
            assert(self.placed()[i] == order[i]);
        }
        assert forall|i: int, j: int|
            0 <= i < order.len() && 0 <= j < order.len() && #[trigger] t.has_edge(
                order[i] as int,
                order[j] as int,
            ) implies i < j by {
            t.lemma_edge_in_pred(order[i] as int, order[j] as int);
            let e = choose|e: int|
                0 <= e < t.pred(order[j] as int).len()
                    && #[trigger] t.pred(order[j] as int)[e] as int
                    == order[i] as int;
            assert(placed_before(order, j, t.pred(order[j] as int)[e]));
            let k = choose|k: int| 0 <= k < j && #[trigger] order[k] == order[i];
            assert(k == i);
        }
    }

    /// A sweep that ran dry before it emitted every vertex left a cycle
    /// behind.
    pub proof fn lemma_stuck(self, t: Topology)
        requires
            t.wf(),
            self.steady(t),
            self.queue.len() == 0,
            self.sorted.len() != t.len(),
        ensures
            !t.acyclic(),
    {
        let sorted = self.sorted;
        assert(self.placed() =~= sorted);
        let left = |v: int| 0 <= v < t.len() && !sorted.contains(v as usize);
        if forall|v: usize| v < t.len() ==> sorted.contains(v) {
            let at = Seq::new(
                t.len(),
                |v: int| choose|k: int| 0 <= k < sorted.len() && sorted[k] == v as usize,
            );
            assert forall|v: int| 0 <= v < at.len() implies 0 <= #[trigger] at[v] < sorted.len()
                && sorted[at[v]] == v as usize by {
                assert(sorted.contains(v as usize));
            }
            assert forall|a: int, b: int|
                0 <= a < at.len() && 0 <= b < at.len() && a != b implies at[a] != at[b] by {
                assert(sorted[at[a]] == a as usize);
                assert(sorted[at[b]] == b as usize);
            }
            lemma_distinct_ints(at, sorted.len());
            lemma_distinct_bounded(sorted, t.len());
            assert(false);
        }
        let first = choose|v: usize| v < t.len() && !sorted.contains(v);
        let v0 = first as int;
        assert(left(v0));
        assert forall|v: int| #[trigger] left(v)
            implies t.has_vertex(v) && exists|w: int| left(w) && t.has_edge(w, v) by {
            assert(self.counts[v] == pending(t.pred(v), sorted));
            assert(!self.placed().contains(v as usize));
            assert(self.counts[v] != 0);
            lemma_pending_zero(t.pred(v), sorted);
            let j = choose|j: int| 0 <= j < t.pred(v).len()
                && !sorted.contains(#[trigger] t.pred(v)[j]);
            let w = t.pred(v)[j];
            assert(t.has_vertex(w as int));
            t.lemma_edge_in_pred(w as int, v);
            assert(left(w as int));
        }
        t.lemma_closed_under_sources(left, v0);
    }
}

} // verus!
