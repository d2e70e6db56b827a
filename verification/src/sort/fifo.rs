use crate::sort::sweep::{lemma_pending_push, lemma_pending_zero, pending, Sweep};
use crate::model::paths::lemma_occurrences_prefix;
use crate::model::topology::{occurrences, Topology};
use vstd::prelude::*;

verus! {

/// The position at which `x` stands in `order`.
pub open spec fn place(order: Seq<usize>, x: usize) -> int {
    choose|i: int| 0 <= i < order.len() && order[i] == x
}

/// The last position in `order` at which one of `sources` stands; -1 where
/// there is no source.
pub open spec fn latest(order: Seq<usize>, sources: Seq<usize>) -> int
    decreases sources.len(),
{
    if sources.len() == 0 {
        -1
    } else {
        let rest = latest(order, sources.drop_last());
        let here = place(order, sources.last());
        if here > rest {
            here
        } else {
            rest
        }
    }
}

/// The last position of `s` that holds `x`; -1 where none does.
pub open spec fn last_index(s: Seq<usize>, x: usize) -> int
    decreases s.len(),
{
    if s.len() == 0 {
        -1
    } else if s.last() == x {
        s.len() - 1
    } else {
        last_index(s.drop_last(), x)
    }
}

/// The moment at which `v` becomes free when the vertices are emitted in
/// `order`: a vertex without incoming edge is free from the start, in the
/// turn of its number; any other is freed by the last of its sources to be
/// emitted, at the last edge that this source has to it.
pub open spec fn freed_at(t: Topology, order: Seq<usize>, v: usize) -> (int, int) {
    let p = latest(order, t.pred(v as int));
    if p < 0 {
        (-1, v as int)
    } else {
        (p, last_index(t.succ(order[p] as int), v))
    }
}

/// The moment `a` comes before the moment `b`.
pub open spec fn earlier(a: (int, int), b: (int, int)) -> bool {
    a.0 < b.0 || (a.0 == b.0 && a.1 < b.1)
}

impl Topology {
    /// The vertices stand in `order` as they became free: first come,
    /// first served.
    pub open spec fn first_come_first_served(self, order: Seq<usize>) -> bool {
        forall|a: int, b: int|
            0 <= a < b < order.len() ==> earlier(
                freed_at(self, order, #[trigger] order[a]),
                freed_at(self, order, #[trigger] order[b]),
            )
    }
}

/// In a list without repetition every entry stands at its own position.
pub proof fn lemma_place(order: Seq<usize>, i: int)
    requires
        order.no_duplicates(),
        0 <= i < order.len(),
    ensures
        place(order, order[i]) == i,
{
}

/// The last position of sources that all stand in `order`.
pub proof fn lemma_latest(order: Seq<usize>, sources: Seq<usize>)
    requires
        order.no_duplicates(),
        forall|j: int| 0 <= j < sources.len() ==> order.contains(#[trigger] sources[j]),
    ensures
        -1 <= latest(order, sources) < order.len(),
        sources.len() > 0 ==> latest(order, sources) >= 0,
        forall|j: int|
            0 <= j < sources.len()
                ==> place(order, #[trigger] sources[j]) <= latest(order, sources),
        sources.len() > 0 ==> exists|j: int|
            0 <= j < sources.len() && place(order, #[trigger] sources[j]) == latest(order, sources),
    decreases sources.len(),
{
    if sources.len() > 0 {
        let front = sources.drop_last();
        assert forall|j: int| 0 <= j < front.len() implies order.contains(#[trigger] front[j]) by {
            assert(front[j] == sources[j]);
        }
        lemma_latest(order, front);
        let x = sources.last();
        assert(x == sources[sources.len() - 1]);
        assert(order.contains(x));
        assert forall|j: int| 0 <= j < sources.len() implies place(order, #[trigger] sources[j])
            <= latest(order, sources) by {
            if j < front.len() {
                assert(front[j] == sources[j]);
            }
        }
        if place(order, x) > latest(order, front) {
            assert(place(order, sources[sources.len() - 1]) == latest(order, sources));
        } else {
            if front.len() > 0 {
                let j = choose|j: int|
                    0 <= j < front.len()
                        && place(order, #[trigger] front[j]) == latest(order, front);
                assert(front[j] == sources[j]);
            }
        }
    }
}

/// A longer order places sources that all stand in the shorter one where
/// the shorter one does.
pub proof fn lemma_latest_stable(shorter: Seq<usize>, longer: Seq<usize>, sources: Seq<usize>)
    requires
        longer.no_duplicates(),
        shorter.len() <= longer.len(),
        forall|i: int| 0 <= i < shorter.len() ==> #[trigger] shorter[i] == longer[i],
        forall|j: int| 0 <= j < sources.len() ==> shorter.contains(#[trigger] sources[j]),
    ensures
        latest(longer, sources) == latest(shorter, sources),
    decreases sources.len(),
{
    if sources.len() > 0 {
        let front = sources.drop_last();
        assert forall|j: int| 0 <= j < front.len()
            implies shorter.contains(#[trigger] front[j]) by {
            assert(front[j] == sources[j]);
        }
        lemma_latest_stable(shorter, longer, front);
        let x = sources.last();
        assert(x == sources[sources.len() - 1]);
        assert(shorter.contains(x));
        let i = place(shorter, x);
        assert(longer[i] == x);
    }
}

/// The moment at which a vertex becomes free does not change when the
/// order grows, once all its sources stand in the order.
pub proof fn lemma_freed_at_stable(t: Topology, shorter: Seq<usize>, longer: Seq<usize>, v: usize)
    requires
        longer.no_duplicates(),
        shorter.len() <= longer.len(),
        forall|i: int| 0 <= i < shorter.len() ==> #[trigger] shorter[i] == longer[i],
        forall|j: int|
            0 <= j < t.pred(v as int).len() ==> shorter.contains(#[trigger] t.pred(v as int)[j]),
    ensures
        freed_at(t, longer, v) == freed_at(t, shorter, v),
{
    lemma_latest_stable(shorter, longer, t.pred(v as int));
    assert(shorter.no_duplicates()) by {
        assert forall|i: int, j: int|
            0 <= i < shorter.len() && 0 <= j < shorter.len() && i != j implies shorter[i]
            != shorter[j] by {
            assert(shorter[i] == longer[i]);
            assert(shorter[j] == longer[j]);
        }
    }
    lemma_latest(shorter, t.pred(v as int));
}

/// Where the last copy of a value stands, given that the prefix up to one
/// of its positions holds all its copies.
pub proof fn lemma_last_index(s: Seq<usize>, e: int, x: usize)
    requires
        0 <= e < s.len(),
        s[e] == x,
        occurrences(s.subrange(0, e + 1), x as int) == occurrences(s, x as int),
    ensures
        last_index(s, x) == e,
    decreases s.len(),
{
    if e < s.len() - 1 {
        let front = s.drop_last();
        assert(front.subrange(0, e + 1) =~= s.subrange(0, e + 1));
        lemma_occurrences_prefix(front, e + 1, x as int);
        lemma_last_index(front, e, x);
    }
}

impl Sweep {
    /// Every source of an emitted or waiting vertex has been emitted.
    pub open spec fn sources_emitted(self, t: Topology) -> bool {
        forall|a: int, j: int|
            0 <= a < self.placed().len() && 0 <= j < t.pred(self.placed()[a] as int).len()
                ==> self.sorted.contains(#[trigger] t.pred(self.placed()[a] as int)[j])
    }

    /// The emitted and the waiting vertices stand as they became free.
    pub open spec fn in_line(self, t: Topology) -> bool {
        forall|a: int, b: int|
            0 <= a < b < self.placed().len() ==> earlier(
                freed_at(t, self.sorted, #[trigger] self.placed()[a]),
                freed_at(t, self.sorted, #[trigger] self.placed()[b]),
            )
    }

    /// Every emitted or waiting vertex became free before the moment
    /// `(p, e)`.
    pub open spec fn freed_before(self, t: Topology, p: int, e: int) -> bool {
        forall|a: int|
            0 <= a < self.placed().len() ==> earlier(
                freed_at(t, self.sorted, #[trigger] self.placed()[a]),
                (p, e),
            )
    }

    /// The sweep has served the vertices first come, first served, up to
    /// the moment `(p, e)`.
    pub open spec fn fifo(self, t: Topology, p: int, e: int) -> bool {
        self.sources_emitted(t) && self.in_line(t) && self.freed_before(t, p, e)
    }

    /// At the start the queue holds the vertices without incoming edge in
    /// the order of their numbers.
    pub proof fn lemma_fifo_begin(self, t: Topology)
        requires
            self.sorted.len() == 0,
            forall|a: int, b: int|
                0 <= a < b < self.queue.len() ==> (#[trigger] self.queue[a]) < (
                #[trigger] self.queue[b]),
            forall|a: int|
                0 <= a < self.queue.len() ==> t.pred((#[trigger] self.queue[a]) as int).len() == 0,
        ensures
            self.fifo(t, 0, 0),
    {
        assert(self.placed() =~= self.queue);
    }

    /// Emitting the head of the queue changes no moment.
    pub proof fn lemma_fifo_take(self, t: Topology)
        requires
            self.steady(t),
            self.queue.len() > 0,
            self.fifo(t, self.sorted.len() as int, 0),
        ensures
            self.take().fifo(t, self.sorted.len() as int, 0),
    {
        let next = self.take();
        assert(next.placed() =~= self.placed());
        assert(self.placed()[self.sorted.len() as int] == self.queue[0]);
        assert(next.sorted.no_duplicates()) by {
            assert forall|i: int, j: int|
                0 <= i < next.sorted.len() && 0 <= j < next.sorted.len() && i != j
                    implies next.sorted[i]
                != next.sorted[j] by {
                assert(next.sorted[i] == self.placed()[i]);
                assert(next.sorted[j] == self.placed()[j]);
            }
        }
        assert forall|a: int| 0 <= a < self.placed().len() implies freed_at(
            t,
            next.sorted,
            #[trigger] self.placed()[a],
        ) == freed_at(t, self.sorted, self.placed()[a]) by {
            lemma_freed_at_stable(t, self.sorted, next.sorted, self.placed()[a]);
        }
        assert forall|a: int, j: int|
            0 <= a < next.placed().len() && 0 <= j < t.pred(
                next.placed()[a] as int,
            ).len() implies next.sorted.contains(#[trigger] t.pred(next.placed()[a] as int)[j]) by {
            let x = t.pred(self.placed()[a] as int)[j];
            assert(self.sorted.contains(x));
            let k = choose|k: int| 0 <= k < self.sorted.len() && self.sorted[k] == x;
            assert(next.sorted[k] == x);
        }
    }

    /// Taking off one more edge: a vertex that becomes free does so at the
    /// present moment, after all that were freed before.
    pub proof fn lemma_fifo_relax(self, t: Topology, e: int)
        requires
            t.wf(),
            self.draining(t, e),
            e < t.succ(self.sorted.last() as int).len(),
            self.fifo(t, self.sorted.len() - 1, e),
        ensures
            self.relax(t.succ(self.sorted.last() as int)[e]).fifo(t, self.sorted.len() - 1, e + 1),
    {
        let p = self.sorted.len() - 1;
        let u = self.sorted.last();
        let done = self.sorted.drop_last();
        let targets = t.succ(u as int);
        let v = targets[e];
        let next = self.relax(v);
        assert(self.placed()[p] == u);
        assert(t.has_vertex(u as int));
        assert(t.has_vertex(t.succ(u as int)[e] as int));
        if next.counts[v as int] == 0 {
            assert(next.placed() =~= self.placed().push(v));
            assert(!done.contains(u)) by {
                if done.contains(u) {
                    let k = choose|k: int| 0 <= k < done.len() && done[k] == u;
                    assert(self.placed()[k] == u);
                }
            }
            assert(done.push(u) =~= self.sorted);
            lemma_occurrences_prefix(targets, e, v as int);
            lemma_occurrences_prefix(targets, e + 1, v as int);
            lemma_pending_push(t.pred(v as int), done, u);
            assert(occurrences(targets, v as int) == occurrences(t.pred(v as int), u as int));
            assert(self.counts[v as int] == pending(t.pred(v as int), done) - occurrences(
                targets.subrange(0, e),
                v as int,
            ));
            assert(pending(t.pred(v as int), self.sorted) == 0);
            assert(occurrences(targets.subrange(0, e + 1), v as int) == occurrences(
                targets,
                v as int,
            ));
            lemma_pending_zero(t.pred(v as int), self.sorted);
            lemma_last_index(targets, e, v);
            assert(self.sorted.no_duplicates()) by {
                assert forall|i: int, j: int|
                    0 <= i < self.sorted.len() && 0 <= j < self.sorted.len() && i != j
                        implies self.sorted[i]
                    != self.sorted[j] by {
                    assert(self.sorted[i] == self.placed()[i]);
                    assert(self.sorted[j] == self.placed()[j]);
                }
            }
            lemma_latest(self.sorted, t.pred(v as int));
            t.lemma_edge_at(u as int, e);
            t.lemma_edge_in_pred(u as int, v as int);
            let j = choose|j: int|
                0 <= j < t.pred(v as int).len()
                    && #[trigger] t.pred(v as int)[j] as int == u as int;
            lemma_place(self.sorted, p);
            assert(place(self.sorted, t.pred(v as int)[j]) == p);
            assert(latest(self.sorted, t.pred(v as int)) == p);
            assert(freed_at(t, self.sorted, v) == (p, e));
            assert forall|a: int| 0 <= a < next.placed().len() implies earlier(
                freed_at(t, next.sorted, #[trigger] next.placed()[a]),
                (p, e + 1),
            ) by {
                if a < self.placed().len() {
                    assert(next.placed()[a] == self.placed()[a]);
                }
            }
            assert forall|a: int, b: int| 0 <= a < b < next.placed().len() implies earlier(
                freed_at(t, next.sorted, #[trigger] next.placed()[a]),
                freed_at(t, next.sorted, #[trigger] next.placed()[b]),
            ) by {
                assert(next.placed()[a] == self.placed()[a]);
                if b < self.placed().len() {
                    assert(next.placed()[b] == self.placed()[b]);
                }
            }
            assert forall|a: int, j: int|
                0 <= a < next.placed().len() && 0 <= j < t.pred(
                    next.placed()[a] as int,
                ).len() implies next.sorted.contains(#[trigger] t.pred(next.placed()[a] as int)[j]) by {
                if a < self.placed().len() {
                    assert(next.placed()[a] == self.placed()[a]);
                }
            }
        } else {
            assert(next.placed() =~= self.placed());
        }
    }

    /// Once every edge of the vertex emitted last is taken off, the next
    /// moment is the first of the next vertex.
    pub proof fn lemma_fifo_settle(self, t: Topology, e: int)
        requires
            self.fifo(t, self.sorted.len() - 1, e),
        ensures
            self.fifo(t, self.sorted.len() as int, 0),
    {
    }

    /// A sweep that has emitted every vertex has emitted them first come,
    /// first served.
    pub proof fn lemma_fifo_complete(self, t: Topology, p: int, e: int)
        requires
            self.queue.len() == 0,
            self.fifo(t, p, e),
        ensures
            t.first_come_first_served(self.sorted),
    {
        assert(self.placed() =~= self.sorted);
    }
}

} // verus!
