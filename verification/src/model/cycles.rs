use crate::model::counting::{below, lemma_distinct_bounded, lemma_repeat};
use crate::model::topology::{listed, Topology};
use vstd::prelude::*;

verus! {

impl Topology {
    /// A walk can be lengthened backwards inside a set whose every vertex
    /// has an edge coming in from the set.
    pub proof fn lemma_walk_back(self, inside: spec_fn(int) -> bool, p: Seq<int>,
        k: nat) -> (q: Seq<int>)
        requires
            forall|v: int| #[trigger] inside(v)
                ==> self.has_vertex(v) && exists|w: int| inside(w) && self.has_edge(w, v),
            self.is_path(p),
            forall|i: int| 0 <= i < p.len() ==> inside(#[trigger] p[i]),
        ensures
            self.is_path(q),
            q.len() == p.len() + k,
            forall|i: int| 0 <= i < q.len() ==> inside(#[trigger] q[i]),
        decreases k,
    {
        if k == 0 {
            p
        } else {
            assert(inside(p[0]));
            let w = choose|w: int| inside(w) && self.has_edge(w, p[0]);
            let r = seq![w] + p;
            assert forall|i: int| 0 <= i < r.len()
                implies self.has_vertex(#[trigger] r[i]) && inside(r[i]) by {
                if i > 0 {
                    assert(r[i] == p[i - 1]);
                }
            }
            assert forall|i: int| 0 <= i < r.len() - 1
                implies self.has_edge(#[trigger] r[i], r[i + 1]) by {
                if i > 0 {
                    assert(r[i] == p[i - 1]);
                    assert(r[i + 1] == p[i]);
                    assert(self.has_edge(p[i - 1], p[i]));
                } else {
                    assert(r[1] == p[0]);
                }
            }
            self.lemma_walk_back(inside, r, (k - 1) as nat)
        }
    }

    /// A non-empty set of vertices, each with an edge coming in from the
    /// set, holds a cycle.
    pub proof fn lemma_closed_under_sources(self, inside: spec_fn(int) -> bool, start: int)
        requires
            forall|v: int| #[trigger] inside(v)
                ==> self.has_vertex(v) && exists|w: int| inside(w) && self.has_edge(w, v),
            inside(start),
        ensures
            !self.acyclic(),
    {
        let q = self.lemma_walk_back(inside, seq![start], self.len());
        assert forall|i: int| 0 <= i < q.len() implies 0 <= #[trigger] q[i] < self.len() by {
            assert(inside(q[i]));
        }
        let (i, j) = lemma_repeat(q, self.len());
        self.lemma_subpath(q, i, j);
        assert(self.connects(q.subrange(i, j + 1), q[i], q[i]));
        assert(self.on_cycle(q[i]));
    }

    /// Along a walk the positions in a topological order grow.
    pub proof fn lemma_walk_ascends(self, order: Seq<usize>, p: Seq<int>, at: Seq<int>, k: int)
        requires
            self.is_topological_order(order),
            self.is_path(p),
            at.len() == p.len(),
            forall|i: int| 0 <= i < p.len()
                ==> 0 <= #[trigger] at[i] < order.len() && order[at[i]] as int == p[i],
            1 <= k < p.len(),
        ensures
            at[0] < at[k],
        decreases k,
    {
        assert(self.has_edge(p[k - 1], p[k]));
        assert(self.has_edge(order[at[k - 1]] as int, order[at[k]] as int));
        if k > 1 {
            self.lemma_walk_ascends(order, p, at, k - 1);
        }
    }

    /// Where each vertex of a walk stands in an order that lists every
    /// vertex.
    pub proof fn lemma_locate(self, order: Seq<usize>, p: Seq<int>) -> (at: Seq<int>)
        requires
            self.len() <= usize::MAX,
            order.len() == self.len(),
            order.no_duplicates(),
            below(order, self.len()),
            forall|i: int| 0 <= i < p.len() ==> self.has_vertex(#[trigger] p[i]),
        ensures
            at.len() == p.len(),
            forall|i: int|
                0 <= i < p.len() ==> 0 <= #[trigger] at[i] < order.len() && order[at[i]] as int
                    == p[i],
    {
        lemma_distinct_bounded(order, self.len());
        let at = Seq::new(
            p.len(),
            |i: int| choose|k: int| 0 <= k < order.len() && order[k] == p[i] as usize,
        );
        assert forall|i: int| 0 <= i < p.len() implies 0 <= #[trigger] at[i] < order.len()
            && order[at[i]] as int == p[i] by {
            assert(self.has_vertex(p[i]));
            assert(order.contains(p[i] as usize));
        }
        at
    }

    /// In a graph with a cycle, a list of its components that hold a cycle
    /// is not empty.
    pub proof fn lemma_cycle_is_listed(self, comps: Seq<Seq<usize>>)
        requires
            self.wf(),
            self.cycle_components(comps),
            !self.acyclic(),
        ensures
            comps.len() > 0,
    {
        let v = choose|v: int| self.on_cycle(v);
        self.lemma_reaches_by_edge_weaken(v, v);
        self.lemma_reaches_vertices(v, v);
        assert(listed(comps, v as usize));
    }

    /// A graph that has a topological order has no cycle.
    pub proof fn lemma_order_means_acyclic(self, order: Seq<usize>)
        requires
            self.len() <= usize::MAX,
            self.is_topological_order(order),
        ensures
            self.acyclic(),
    {
        assert forall|v: int| !self.on_cycle(v) by {
            if self.on_cycle(v) {
                let p = choose|p: Seq<int>| #[trigger] self.connects(p, v, v) && p.len() >= 2;
                assert(below(order, self.len())) by {
                    assert forall|i: int| 0 <= i < order.len() implies (#[trigger] order[i])
                        < self.len() by {
                        assert(self.has_vertex(order[i] as int));
                    }
                }
                let at = self.lemma_locate(order, p);
                self.lemma_walk_ascends(order, p, at, p.len() - 1);
                assert(order[at[0]] as int == p[0]);
                assert(order[at[p.len() - 1]] as int == p[p.len() - 1]);
            }
        }
    }
}

} // verus!
