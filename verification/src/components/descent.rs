use crate::model::counting::{below, lemma_distinct_bounded, lemma_push_distinct};
use crate::model::topology::Topology;
use vstd::prelude::*;

verus! {

/// The edges that a depth-first search follows from `v`: the outgoing ones,
/// or the incoming ones when it walks backward.
pub open spec fn trail(t: Topology, v: int, backward: bool) -> Seq<usize> {
    if backward {
        t.pred(v)
    } else {
        t.succ(v)
    }
}

/// The work that a depth-first stack still holds: one step for each entry
/// and one for each edge that an entry has not followed yet.
pub open spec fn stack_weight(t: Topology, stack: Seq<(usize, usize)>, backward: bool) -> int
    decreases stack.len(),
{
    if stack.len() == 0 {
        0
    } else {
        stack_weight(t, stack.drop_last(), backward) + 1 + trail(
            t,
            stack.last().0 as int,
            backward,
        ).len() - stack.last().1
    }
}

/// Pushing an entry adds its share to the weight.
pub proof fn lemma_stack_weight_push(
    t: Topology,
    stack: Seq<(usize, usize)>,
    top: (usize, usize),
    backward: bool,
)
    ensures
        stack_weight(t, stack.push(top), backward) == stack_weight(t, stack, backward) + 1 + trail(
            t,
            top.0 as int,
            backward,
        ).len() - top.1,
{
    assert(stack.push(top).drop_last() =~= stack);
}

/// A stack whose entries stay within their edge lists weighs at least
/// its length.
pub proof fn lemma_stack_weight_bound(t: Topology, stack: Seq<(usize, usize)>, backward: bool)
    requires
        forall|i: int|
            0 <= i < stack.len() ==> (#[trigger] stack[i]).1 <= trail(
                t,
                stack[i].0 as int,
                backward,
            ).len(),
    ensures
        stack_weight(t, stack, backward) >= stack.len(),
    decreases stack.len(),
{
    if stack.len() > 0 {
        let rest = stack.drop_last();
        assert forall|i: int| 0 <= i < rest.len() implies (#[trigger] rest[i]).1 <= trail(
            t,
            rest[i].0 as int,
            backward,
        ).len() by {
            assert(rest[i] == stack[i]);
        }
        lemma_stack_weight_bound(t, rest, backward);
        assert(stack.last() == stack[stack.len() - 1]);
    }
}

/// The state of a depth-first search along the outgoing edges.
pub struct Descent {
    /// 1 for each vertex that the search has reached, 0 for the others.
    pub marks: Seq<int>,
    /// The vertices on the current branch, each with the offset of the edge
    /// that it follows next.
    pub stack: Seq<(usize, usize)>,
    /// The vertices whose edges are all followed, in the order in which the
    /// search left them.
    pub finished: Seq<usize>,
    /// For each reached vertex, how many vertices were finished when the
    /// search reached it.
    pub entered: Seq<int>,
    /// For each finished vertex its position in `finished`; the number of
    /// vertices for every other one.
    pub rank: Seq<int>,
}

impl Descent {
    /// `v` is on the current branch.
    pub open spec fn on_stack(self, v: int) -> bool {
        exists|i: int| 0 <= i < self.stack.len() && (#[trigger] self.stack[i]).0 as int == v
    }

    /// The parts fit the graph: every mark is 0 or 1, a rank is a position
    /// in `finished` or the number of vertices, and a marked vertex is
    /// finished or on the stack.
    pub open spec fn shape(self, t: Topology) -> bool {
        &&& self.marks.len() == t.len()
        &&& self.entered.len() == t.len()
        &&& self.rank.len() == t.len()
        &&& self.finished.len() + self.stack.len() <= t.len()
        &&& forall|v: int|
            0 <= v < t.len() ==> (#[trigger] self.marks[v]) == 0 || self.marks[v] == 1
        &&& forall|v: int|
            0 <= v < t.len() ==> (#[trigger] self.rank[v]) == t.len() || (0 <= self.rank[v]
                < self.finished.len() && self.finished[self.rank[v]] as int == v)
        &&& forall|v: int|
            0 <= v < t.len() && #[trigger] self.marks[v] == 1 ==> self.rank[v] < t.len()
                || self.on_stack(v)
    }

    /// Every finished vertex is marked, knows its position, and was reached
    /// no later than it was finished.
    pub open spec fn finished_ok(self, t: Topology) -> bool {
        forall|q: int|
            0 <= q < self.finished.len() ==> {
                let v = #[trigger] self.finished[q] as int;
                &&& v < t.len()
                &&& self.rank[v] == q
                &&& self.marks[v] == 1
                &&& 0 <= self.entered[v] <= q
            }
    }

    /// The stack holds distinct marked vertices that are not finished, each
    /// within its edge list; a lower entry was reached before a higher one,
    /// and reaches it.
    pub open spec fn stack_ok(self, t: Topology) -> bool {
        &&& forall|i: int|
            0 <= i < self.stack.len() ==> {
                let v = (#[trigger] self.stack[i]).0 as int;
                &&& v < t.len()
                &&& self.stack[i].1 <= t.succ(v).len()
                &&& self.marks[v] == 1
                &&& self.rank[v] == t.len()
                &&& 0 <= self.entered[v] <= self.finished.len()
            }
        &&& forall|i: int, j: int|
            0 <= i < j < self.stack.len() ==> {
                let a = (#[trigger] self.stack[i]).0 as int;
                let b = (#[trigger] self.stack[j]).0 as int;
                &&& a != b
                &&& self.entered[a] <= self.entered[b]
                &&& t.reaches(a, b)
            }
    }

    /// Every edge that a stack entry has followed led to a reached vertex.
    pub open spec fn explored(self, t: Topology) -> bool {
        forall|i: int, e: int|
            0 <= i < self.stack.len() && 0 <= e < self.stack[i].1 ==> self.marks[(
            #[trigger] t.succ(self.stack[i].0 as int)[e]) as int] == 1
    }

    /// What was finished since a stack vertex was reached can be reached
    /// from it, and was reached after it.
    pub open spec fn subtree_stack(self, t: Topology) -> bool {
        forall|i: int, p: int|
            0 <= i < self.stack.len() && self.entered[self.stack[i].0 as int] <= p
                < self.finished.len() ==> {
                let a = (#[trigger] self.stack[i]).0 as int;
                let b = (#[trigger] self.finished[p]) as int;
                t.reaches(a, b) && self.entered[a] <= self.entered[b]
            }
    }

    /// What was finished between the reaching and the finishing of a vertex
    /// can be reached from it, and was reached after it.
    pub open spec fn subtree_finished(self, t: Topology) -> bool {
        forall|q: int, p: int|
            0 <= q < self.finished.len() && self.entered[self.finished[q] as int] <= p <= q ==> {
                let a = (#[trigger] self.finished[q]) as int;
                let b = (#[trigger] self.finished[p]) as int;
                t.reaches(a, b) && self.entered[a] <= self.entered[b]
            }
    }

    /// Every edge of a finished vertex leads to a vertex that was finished
    /// before it, or that was reached before it was finished.
    pub open spec fn edges_finished(self, t: Topology) -> bool {
        forall|q: int, e: int|
            0 <= q < self.finished.len() && 0 <= e < t.succ(self.finished[q] as int).len() ==> {
                let w = (#[trigger] t.succ(self.finished[q] as int)[e]) as int;
                &&& self.marks[w] == 1
                &&& (self.rank[w] < q || self.entered[w] <= q)
            }
    }

    /// What holds of the search between any two of its steps.
    pub open spec fn inv(self, t: Topology) -> bool {
        &&& self.shape(t)
        &&& self.finished_ok(t)
        &&& self.stack_ok(t)
        &&& self.explored(t)
        &&& self.subtree_stack(t)
        &&& self.subtree_finished(t)
        &&& self.edges_finished(t)
    }

    /// The search before it has reached anything.
    pub open spec fn fresh(t: Topology) -> Descent {
        Descent {
            marks: Seq::new(t.len(), |v: int| 0int),
            stack: Seq::empty(),
            finished: Seq::empty(),
            entered: Seq::new(t.len(), |v: int| 0int),
            rank: Seq::new(t.len(), |v: int| t.len() as int),
        }
    }

    /// The top entry moves on to its next edge.
    pub open spec fn advance(self) -> Descent {
        Descent {
            stack: self.stack.drop_last().push((self.stack.last().0,
                (self.stack.last().1 + 1) as usize)),
            ..self
        }
    }

    /// The search reaches `c` and puts it on the stack.
    pub open spec fn enter(self, c: usize) -> Descent {
        Descent {
            marks: self.marks.update(c as int, 1),
            stack: self.stack.push((c, 0)),
            entered: self.entered.update(c as int, self.finished.len() as int),
            ..self
        }
    }

    /// The search leaves the top vertex for good.
    pub open spec fn retreat(self) -> Descent {
        Descent {
            stack: self.stack.drop_last(),
            finished: self.finished.push(self.stack.last().0),
            rank: self.rank.update(self.stack.last().0 as int, self.finished.len() as int),
            ..self
        }
    }

    /// Remaining work, for termination: the vertices not reached yet.
    pub open spec fn untouched(self, t: Topology) -> int {
        t.len() - self.finished.len() - self.stack.len()
    }

    /// The search holds its invariant before it starts.
    pub proof fn lemma_fresh(t: Topology)
        ensures
            Descent::fresh(t).inv(t),
    {
    }

    /// The reached vertices, finished ones first.
    pub open spec fn reached(self) -> Seq<usize> {
        self.finished + Seq::new(self.stack.len(), |i: int| self.stack[i].0)
    }

    /// The reached vertices are distinct vertices of the graph, all marked.
    pub proof fn lemma_reached_distinct(self, t: Topology)
        requires
            self.shape(t),
            self.finished_ok(t),
            self.stack_ok(t),
        ensures
            self.reached().no_duplicates(),
            below(self.reached(), t.len()),
            self.reached().len() == self.finished.len() + self.stack.len(),
            forall|i: int|
                0 <= i < self.reached().len() ==> self.marks[(#[trigger] self.reached()[i]) as int]
                    == 1,
    {
        let r = self.reached();
        let f = self.finished.len() as int;
        assert forall|i: int| 0 <= i < r.len() implies (#[trigger] r[i]) < t.len()
            && self.marks[r[i] as int] == 1 && (i < f ==> self.rank[r[i] as int] == i) && (i >= f
            ==> self.rank[r[i] as int] == t.len() && r[i] == self.stack[i - f].0) by {
            if i < f {
                assert(r[i] == self.finished[i]);
            } else {
                assert(r[i] == self.stack[i - f].0);
            }
        }
        assert forall|i: int, j: int| 0 <= i < r.len() && 0 <= j < r.len() && i != j implies r[i]
            != r[j] by {
            if i >= f && j >= f {
                if i < j {
                    assert(self.stack[i - f].0 != self.stack[j - f].0);
                } else {
                    assert(self.stack[j - f].0 != self.stack[i - f].0);
                }
            }
        }
    }

    /// Like `explored`, but for edges that lead to `c`.
    pub open spec fn explored_but(self, t: Topology, c: int) -> bool {
        forall|i: int, e: int|
            0 <= i < self.stack.len() && 0 <= e < self.stack[i].1 ==> {
                let w = (#[trigger] t.succ(self.stack[i].0 as int)[e]) as int;
                self.marks[w] == 1 || w == c
            }
    }

    /// The invariant while the top entry has followed an edge to `c` that
    /// the search has yet to act on.
    pub open spec fn inv_but(self, t: Topology, c: int) -> bool {
        &&& self.shape(t)
        &&& self.finished_ok(t)
        &&& self.stack_ok(t)
        &&& self.explored_but(t, c)
        &&& self.subtree_stack(t)
        &&& self.subtree_finished(t)
        &&& self.edges_finished(t)
    }

    /// Moving the top entry on to its next edge.
    pub proof fn lemma_advance(self, t: Topology)
        requires
            t.wf(),
            self.inv(t),
            self.stack.len() > 0,
            self.stack.last().1 < t.succ(self.stack.last().0 as int).len(),
            self.stack.last().1 < usize::MAX,
        ensures
            self.advance().inv_but(t,
                t.succ(self.stack.last().0 as int)[self.stack.last().1 as int] as int),
            t.has_edge(self.stack.last().0 as int,
                t.succ(self.stack.last().0 as int)[self.stack.last().1 as int] as int),
            self.advance().stack.last().0 == self.stack.last().0,
            self.advance().untouched(t) == self.untouched(t),
            stack_weight(t, self.advance().stack, false) == stack_weight(t, self.stack, false) - 1,
    {
        let next = self.advance();
        let k = self.stack.len() - 1;
        let u = self.stack[k].0;
        let e = self.stack[k].1;
        let c = t.succ(u as int)[e as int] as int;
        assert(self.stack.last() == self.stack[k]);
        assert(t.has_vertex(u as int));
        assert(t.has_vertex(t.succ(u as int)[e as int] as int));
        assert(next.stack.len() == self.stack.len());
        assert forall|i: int| 0 <= i < next.stack.len()
            implies (#[trigger] next.stack[i]).0 == self.stack[i].0
            && (i < k ==> next.stack[i] == self.stack[i]) && (i == k
                ==> next.stack[i].1 == e + 1) by {}
        assert(next.shape(t)) by {
            assert forall|v: int| 0 <= v < t.len() && #[trigger] next.marks[v] == 1
                implies next.rank[v] < t.len() || next.on_stack(v) by {
                if !(self.rank[v] < t.len()) {
                    assert(self.on_stack(v));
                    let i = choose|i: int| 0 <= i < self.stack.len()
                        && (#[trigger] self.stack[i]).0 as int == v;
                    assert(next.stack[i].0 as int == v);
                }
            }
        }
        assert(next.stack_ok(t)) by {
            assert forall|i: int| 0 <= i < next.stack.len() implies ({
                let v = (#[trigger] next.stack[i]).0 as int;
                &&& v < t.len()
                &&& next.stack[i].1 <= t.succ(v).len()
                &&& next.marks[v] == 1
                &&& next.rank[v] == t.len()
                &&& 0 <= next.entered[v] <= next.finished.len()
            }) by {
                assert(self.stack[i].0 == next.stack[i].0);
            }
            assert forall|i: int, j: int| 0 <= i < j < next.stack.len() implies ({
                let a = (#[trigger] next.stack[i]).0 as int;
                let b = (#[trigger] next.stack[j]).0 as int;
                &&& a != b
                &&& next.entered[a] <= next.entered[b]
                &&& t.reaches(a, b)
            }) by {
                assert(self.stack[i].0 == next.stack[i].0);
                assert(self.stack[j].0 == next.stack[j].0);
            }
        }
        assert(next.explored_but(t, c)) by {
            assert forall|i: int, e2: int| 0 <= i < next.stack.len()
                && 0 <= e2 < next.stack[i].1 implies ({
                let w = (#[trigger] t.succ(next.stack[i].0 as int)[e2]) as int;
                next.marks[w] == 1 || w == c
            }) by {
                assert(self.stack[i].0 == next.stack[i].0);
                if i == k && e2 == e {
                } else {
                    assert(e2 < self.stack[i].1);
                }
            }
        }
        assert(next.subtree_stack(t)) by {
            assert forall|i: int, p: int| 0 <= i < next.stack.len()
                && next.entered[next.stack[i].0 as int] <= p < next.finished.len() implies ({
                let a = (#[trigger] next.stack[i]).0 as int;
                let b = (#[trigger] next.finished[p]) as int;
                t.reaches(a, b) && next.entered[a] <= next.entered[b]
            }) by {
                assert(self.stack[i].0 == next.stack[i].0);
            }
        }
        t.lemma_edge_at(u as int, e as int);
        assert(self.stack.drop_last().push((u, (e + 1) as usize)) == next.stack);
        lemma_stack_weight_push(t, self.stack.drop_last(), (u, (e + 1) as usize), false);
        lemma_stack_weight_push(t, self.stack.drop_last(), self.stack.last(), false);
        assert(self.stack.drop_last().push(self.stack.last()) =~= self.stack);
    }

    /// An edge to a vertex that was reached before needs nothing more.
    pub proof fn lemma_skip(self, t: Topology, c: int)
        requires
            self.inv_but(t, c),
            0 <= c < t.len(),
            self.marks[c] == 1,
        ensures
            self.inv(t),
    {
        assert forall|i: int, e: int|
            0 <= i < self.stack.len() && 0 <= e < self.stack[i].1 implies self.marks[(
        #[trigger] t.succ(self.stack[i].0 as int)[e]) as int] == 1 by {}
    }

    /// Reaching a new vertex `c`, from the top of the stack or as a new
    /// start.
    pub proof fn lemma_enter(self, t: Topology, c: usize)
        requires
            t.wf(),
            self.inv_but(t, c as int),
            c < t.len(),
            self.marks[c as int] == 0,
            self.stack.len() > 0 ==> t.has_edge(self.stack.last().0 as int, c as int),
        ensures
            self.enter(c).inv(t),
            self.enter(c).untouched(t) == self.untouched(t) - 1,
            self.enter(c).untouched(t) >= 0,
    {
        let next = self.enter(c);
        let k = self.stack.len() as int;
        let f = self.finished.len() as int;
        assert(next.stack.len() == k + 1);
        assert forall|i: int| 0 <= i < k
            implies #[trigger] next.stack[i] == self.stack[i] && self.stack[i].0 != c by {}
        assert(next.stack[k] == (c, 0usize));
        assert(self.rank[c as int] == t.len());
        assert forall|q: int| 0 <= q < f implies (#[trigger] self.finished[q]) != c by {}
        // room for one more
        assert(f + k + 1 <= t.len()) by {
            let r = self.reached();
            self.lemma_reached_distinct(t);
            assert(!r.contains(c)) by {
                if r.contains(c) {
                    let i = choose|i: int| 0 <= i < r.len() && r[i] == c;
                    assert(self.marks[r[i] as int] == 1);
                }
            }
            lemma_push_distinct(r, c);
            assert(below(r.push(c), t.len()));
            lemma_distinct_bounded(r.push(c), t.len());
        }
        assert(next.shape(t)) by {
            assert forall|v: int| 0 <= v < t.len() && #[trigger] next.marks[v] == 1
                implies next.rank[v] < t.len() || next.on_stack(v) by {
                if v == c {
                    assert(next.stack[k].0 as int == v);
                } else if !(self.rank[v] < t.len()) {
                    assert(self.marks[v] == 1);
                    assert(self.on_stack(v));
                    let i = choose|i: int| 0 <= i < self.stack.len()
                        && (#[trigger] self.stack[i]).0 as int == v;
                    assert(next.stack[i].0 as int == v);
                }
            }
        }
        assert(next.finished_ok(t)) by {
            assert forall|q: int| 0 <= q < next.finished.len() implies ({
                let v = #[trigger] next.finished[q] as int;
                &&& v < t.len()
                &&& next.rank[v] == q
                &&& next.marks[v] == 1
                &&& 0 <= next.entered[v] <= q
            }) by {
                assert(self.finished[q] != c);
            }
        }
        assert(next.stack_ok(t)) by {
            assert forall|i: int| 0 <= i < next.stack.len() implies ({
                let v = (#[trigger] next.stack[i]).0 as int;
                &&& v < t.len()
                &&& next.stack[i].1 <= t.succ(v).len()
                &&& next.marks[v] == 1
                &&& next.rank[v] == t.len()
                &&& 0 <= next.entered[v] <= next.finished.len()
            }) by {
                if i < k {
                    assert(next.stack[i] == self.stack[i]);
                }
            }
            assert forall|i: int, j: int| 0 <= i < j < next.stack.len() implies ({
                let a = (#[trigger] next.stack[i]).0 as int;
                let b = (#[trigger] next.stack[j]).0 as int;
                &&& a != b
                &&& next.entered[a] <= next.entered[b]
                &&& t.reaches(a, b)
            }) by {
                assert(next.stack[i] == self.stack[i]);
                if j < k {
                    assert(next.stack[j] == self.stack[j]);
                } else {
                    let a = self.stack[i].0 as int;
                    let top = self.stack[k - 1].0 as int;
                    assert(self.stack.last() == self.stack[k - 1]);
                    if i < k - 1 {
                        assert(t.reaches(a, top));
                    } else {
                        t.lemma_reaches_self(a);
                    }
                    t.lemma_edge_reaches(top, c as int);
                    t.lemma_reaches_trans(a, top, c as int);
                }
            }
        }
        assert(next.explored(t)) by {
            assert forall|i: int, e: int| 0 <= i < next.stack.len()
                && 0 <= e < next.stack[i].1 implies next.marks[(
            #[trigger] t.succ(next.stack[i].0 as int)[e]) as int] == 1 by {
                assert(next.stack[i] == self.stack[i]);
                let w = t.succ(self.stack[i].0 as int)[e] as int;
                assert(self.marks[w] == 1 || w == c);
            }
        }
        assert(next.subtree_stack(t)) by {
            assert forall|i: int, p: int| 0 <= i < next.stack.len()
                && next.entered[next.stack[i].0 as int] <= p < next.finished.len() implies ({
                let a = (#[trigger] next.stack[i]).0 as int;
                let b = (#[trigger] next.finished[p]) as int;
                t.reaches(a, b) && next.entered[a] <= next.entered[b]
            }) by {
                assert(self.finished[p] != c);
                if i < k {
                    assert(next.stack[i] == self.stack[i]);
                }
            }
        }
        assert(next.subtree_finished(t)) by {
            assert forall|q: int, p: int| 0 <= q < next.finished.len()
                && next.entered[next.finished[q] as int] <= p <= q implies ({
                let a = (#[trigger] next.finished[q]) as int;
                let b = (#[trigger] next.finished[p]) as int;
                t.reaches(a, b) && next.entered[a] <= next.entered[b]
            }) by {
                assert(self.finished[p] != c);
                assert(self.finished[q] != c);
            }
        }
        assert(next.edges_finished(t)) by {
            assert forall|q: int, e: int| 0 <= q < next.finished.len()
                && 0 <= e < t.succ(next.finished[q] as int).len() implies ({
                let w = (#[trigger] t.succ(next.finished[q] as int)[e]) as int;
                &&& next.marks[w] == 1
                &&& (next.rank[w] < q || next.entered[w] <= q)
            }) by {
                let w = t.succ(self.finished[q] as int)[e] as int;
                assert(self.marks[w] == 1);
            }
        }
    }

    /// Leaving the top vertex once all its edges are followed.
    pub proof fn lemma_retreat(self, t: Topology)
        requires
            t.wf(),
            self.inv(t),
            self.stack.len() > 0,
            self.stack.last().1 == t.succ(self.stack.last().0 as int).len(),
        ensures
            self.retreat().inv(t),
            self.retreat().untouched(t) == self.untouched(t),
            stack_weight(t, self.retreat().stack, false) == stack_weight(t, self.stack, false) - 1,
    {
        let next = self.retreat();
        let k = self.stack.len() - 1;
        let f = self.finished.len() as int;
        let u = self.stack[k].0;
        assert(self.stack.last() == self.stack[k]);
        assert(next.stack.len() == k);
        assert forall|i: int| 0 <= i < k
            implies #[trigger] next.stack[i] == self.stack[i] && self.stack[i].0 != u by {}
        assert forall|q: int| 0 <= q < f
            implies #[trigger] next.finished[q] == self.finished[q] && self.finished[q] != u by {}
        assert(next.finished[f] == u);
        assert(next.shape(t)) by {
            assert forall|v: int| 0 <= v < t.len()
                implies (#[trigger] next.rank[v]) == t.len() || (0 <= next.rank[v]
                < next.finished.len() && next.finished[next.rank[v]] as int == v) by {
                if v != u as int && self.rank[v] != t.len() {
                    assert(next.finished[self.rank[v]] == self.finished[self.rank[v]]);
                }
            }
            assert forall|v: int| 0 <= v < t.len() && #[trigger] next.marks[v] == 1
                implies next.rank[v] < t.len() || next.on_stack(v) by {
                if v != u as int && !(self.rank[v] < t.len()) {
                    assert(self.on_stack(v));
                    let i = choose|i: int| 0 <= i < self.stack.len()
                        && (#[trigger] self.stack[i]).0 as int == v;
                    assert(next.stack[i].0 as int == v);
                }
            }
        }
        assert(next.finished_ok(t)) by {
            assert forall|q: int| 0 <= q < next.finished.len() implies ({
                let v = #[trigger] next.finished[q] as int;
                &&& v < t.len()
                &&& next.rank[v] == q
                &&& next.marks[v] == 1
                &&& 0 <= next.entered[v] <= q
            }) by {
                if q < f {
                    assert(next.finished[q] == self.finished[q]);
                }
            }
        }
        assert(next.stack_ok(t)) by {
            assert forall|i: int| 0 <= i < next.stack.len() implies ({
                let v = (#[trigger] next.stack[i]).0 as int;
                &&& v < t.len()
                &&& next.stack[i].1 <= t.succ(v).len()
                &&& next.marks[v] == 1
                &&& next.rank[v] == t.len()
                &&& 0 <= next.entered[v] <= next.finished.len()
            }) by {
                assert(next.stack[i] == self.stack[i]);
            }
            assert forall|i: int, j: int| 0 <= i < j < next.stack.len() implies ({
                let a = (#[trigger] next.stack[i]).0 as int;
                let b = (#[trigger] next.stack[j]).0 as int;
                &&& a != b
                &&& next.entered[a] <= next.entered[b]
                &&& t.reaches(a, b)
            }) by {
                assert(next.stack[i] == self.stack[i]);
                assert(next.stack[j] == self.stack[j]);
            }
        }
        assert(next.explored(t)) by {
            assert forall|i: int, e: int| 0 <= i < next.stack.len()
                && 0 <= e < next.stack[i].1 implies next.marks[(
            #[trigger] t.succ(next.stack[i].0 as int)[e]) as int] == 1 by {
                assert(next.stack[i] == self.stack[i]);
            }
        }
        assert(next.subtree_stack(t)) by {
            assert forall|i: int, p: int| 0 <= i < next.stack.len()
                && next.entered[next.stack[i].0 as int] <= p < next.finished.len() implies ({
                let a = (#[trigger] next.stack[i]).0 as int;
                let b = (#[trigger] next.finished[p]) as int;
                t.reaches(a, b) && next.entered[a] <= next.entered[b]
            }) by {
                assert(next.stack[i] == self.stack[i]);
                if p < f {
                    assert(next.finished[p] == self.finished[p]);
                } else {
                    assert(self.stack[i].0 != self.stack[k].0);
                }
            }
        }
        assert(next.subtree_finished(t)) by {
            assert forall|q: int, p: int| 0 <= q < next.finished.len()
                && next.entered[next.finished[q] as int] <= p <= q implies ({
                let a = (#[trigger] next.finished[q]) as int;
                let b = (#[trigger] next.finished[p]) as int;
                t.reaches(a, b) && next.entered[a] <= next.entered[b]
            }) by {
                if q < f {
                    assert(next.finished[q] == self.finished[q]);
                    assert(next.finished[p] == self.finished[p]);
                } else if p < f {
                    assert(next.finished[p] == self.finished[p]);
                    let a = (self.stack[k]).0 as int;
                    let b = (self.finished[p]) as int;
                    assert(t.reaches(a, b) && self.entered[a] <= self.entered[b]);
                } else {
                    t.lemma_reaches_self(u as int);
                }
            }
        }
        assert(next.edges_finished(t)) by {
            assert forall|q: int, e: int| 0 <= q < next.finished.len()
                && 0 <= e < t.succ(next.finished[q] as int).len() implies ({
                let w = (#[trigger] t.succ(next.finished[q] as int)[e]) as int;
                &&& next.marks[w] == 1
                &&& (next.rank[w] < q || next.entered[w] <= q)
            }) by {
                if q < f {
                    assert(next.finished[q] == self.finished[q]);
                    let w = t.succ(self.finished[q] as int)[e] as int;
                    assert(self.marks[w] == 1);
                } else {
                    let w = t.succ(self.stack[k].0 as int)[e] as int;
                    assert(self.marks[w] == 1);
                    assert(t.has_vertex(t.succ(u as int)[e] as int));
                    if self.rank[w] < t.len() {
                    } else {
                        assert(self.on_stack(w));
                        let i = choose|i: int| 0 <= i < self.stack.len()
                            && (#[trigger] self.stack[i]).0 as int == w;
                        assert(self.entered[w] <= f);
                    }
                }
            }
        }
        lemma_stack_weight_push(t, self.stack.drop_last(), self.stack.last(), false);
        assert(self.stack.drop_last().push(self.stack.last()) =~= self.stack);
    }
}

} // verus!
