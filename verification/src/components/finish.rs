use crate::components::descent::Descent;
use crate::model::topology::Topology;
use vstd::prelude::*;

verus! {

/// What a completed depth-first search along the outgoing edges leaves
/// behind.
pub struct Finish {
    /// Every vertex, in the order in which the search left it.
    pub finished: Seq<usize>,
    /// For each vertex, how many vertices were finished when the search
    /// reached it.
    pub entered: Seq<int>,
    /// For each vertex its position in `finished`.
    pub rank: Seq<int>,
}

impl Finish {
    /// Every vertex is finished. What was finished between the reaching and
    /// the finishing of a vertex can be reached from it and was reached
    /// after it; every edge leads to a vertex that was finished before its
    /// source, or reached before its source was finished.
    pub open spec fn complete(self, t: Topology) -> bool {
        &&& self.entered.len() == t.len()
        &&& self.rank.len() == t.len()
        &&& forall|q: int|
            0 <= q < self.finished.len() ==> (#[trigger] self.finished[q]) < t.len()
                && self.rank[self.finished[q] as int] == q
        &&& forall|v: int|
            0 <= v < t.len() ==> 0 <= self.entered[v] <= #[trigger] self.rank[v]
                < self.finished.len() && self.finished[self.rank[v]] as int == v
        &&& forall|v: int, p: int|
            0 <= v < t.len() && self.entered[v] <= p <= self.rank[v] ==> t.reaches(
                v,
                self.finished[p] as int,
            ) && #[trigger] self.entered[v] <= self.entered[(#[trigger] self.finished[p]) as int]
        &&& forall|u: int, e: int|
            0 <= u < t.len() && 0 <= e < t.succ(u).len() ==> {
                let w = (#[trigger] t.succ(u)[e]) as int;
                self.rank[w] < self.rank[u] || self.entered[w] <= self.rank[u]
            }
    }

    /// What lies between the reaching and the finishing of `r` can be
    /// reached from `r`; so can a vertex with an edge into that stretch,
    /// unless it was finished after `r`.
    pub proof fn lemma_into_subtree(self, t: Topology, r: int, x: int, y: int)
        requires
            t.wf(),
            self.complete(t),
            t.has_vertex(r),
            t.has_edge(y, x),
            self.entered[r] <= self.rank[x] <= self.rank[r],
            self.rank[y] <= self.rank[r],
        ensures
            self.entered[r] <= self.rank[y],
            t.reaches(r, y),
    {
        let e = choose|e: int| 0 <= e < t.succ(y).len() && #[trigger] t.succ(y)[e] as int == x;
        let w = t.succ(y)[e] as int;
        assert(self.rank[w] < self.rank[y] || self.entered[w] <= self.rank[y]);
        let p = self.rank[x];
        assert(self.finished[p] as int == x);
        assert(self.entered[r] <= self.entered[self.finished[p] as int]);
        let q = self.rank[y];
        assert(self.finished[q] as int == y);
        assert(t.reaches(r, self.finished[q] as int));
    }
}

impl Descent {
    /// What the search leaves behind.
    pub open spec fn summary(self) -> Finish {
        Finish { finished: self.finished, entered: self.entered, rank: self.rank }
    }

    /// A search that has reached every vertex and emptied its stack is
    /// complete.
    pub proof fn lemma_finish(self, t: Topology)
        requires
            self.inv(t),
            self.stack.len() == 0,
            forall|v: int| 0 <= v < t.len() ==> #[trigger] self.marks[v] == 1,
        ensures
            self.summary().complete(t),
    {
        let f = self.summary();
        assert forall|v: int| 0 <= v < t.len()
            implies 0 <= self.entered[v] <= #[trigger] self.rank[v]
            < self.finished.len() && self.finished[self.rank[v]] as int == v by {
            assert(self.marks[v] == 1);
            assert(!self.on_stack(v));
            let q = self.rank[v];
            assert(self.finished[q] as int == v);
        }
        assert(f.rank == self.rank && f.entered == self.entered && f.finished == self.finished);
        assert forall|v: int, p: int|
            0 <= v < t.len() && f.entered[v] <= p <= f.rank[v] implies t.reaches(
            v,
            f.finished[p] as int,
        ) && #[trigger] f.entered[v] <= f.entered[(#[trigger] f.finished[p]) as int] by {
            let q = self.rank[v];
            assert(self.finished[q] as int == v);
            let a = (self.finished[q]) as int;
            let b = (self.finished[p]) as int;
            assert(t.reaches(a, b) && self.entered[a] <= self.entered[b]);
        }
        assert forall|u: int, e: int| 0 <= u < t.len() && 0 <= e < t.succ(u).len() implies ({
            let w = (#[trigger] t.succ(u)[e]) as int;
            f.rank[w] < f.rank[u] || f.entered[w] <= f.rank[u]
        }) by {
            let q = self.rank[u];
            assert(self.finished[q] as int == u);
            let w = (t.succ(self.finished[q] as int)[e]) as int;
            assert(self.rank[w] < q || self.entered[w] <= q);
        }
    }
}

/// No marked vertex has an edge coming in from an unmarked one.
pub open spec fn sealed(t: Topology, marks: Seq<int>) -> bool {
    forall|v: int, j: int|
        0 <= v < t.len() && 0 <= j < t.pred(v).len() && marks[v] == 2 ==> marks[(
        #[trigger] t.pred(v)[j]) as int] == 2
}

/// A walk that ends at a marked vertex starts at one.
pub proof fn lemma_upstream(t: Topology, marks: Seq<int>, p: Seq<int>)
    requires
        t.wf(),
        marks.len() == t.len(),
        sealed(t, marks),
        t.is_path(p),
        marks[p.last()] == 2,
    ensures
        marks[p.first()] == 2,
    decreases p.len(),
{
    if p.len() > 1 {
        let n = p.len() as int;
        let x = p[n - 1];
        let y = p[n - 2];
        assert(t.has_edge(y, x));
        t.lemma_edge_in_pred(y, x);
        let j = choose|j: int| 0 <= j < t.pred(x).len() && #[trigger] t.pred(x)[j] as int == y;
        assert(marks[t.pred(x)[j] as int] == 2);
        t.lemma_subpath(p, 0, n - 2);
        lemma_upstream(t, marks, p.subrange(0, n - 1));
    }
}

/// Whatever reaches a marked vertex is marked.
pub proof fn lemma_upstream_reaches(t: Topology, marks: Seq<int>, w: int, x: int)
    requires
        t.wf(),
        marks.len() == t.len(),
        sealed(t, marks),
        t.reaches(w, x),
        marks[x] == 2,
    ensures
        marks[w] == 2,
{
    let p = choose|p: Seq<int>| t.connects(p, w, x);
    lemma_upstream(t, marks, p);
}

} // verus!
