use crate::model::paths::lemma_occurrences_push;
use crate::model::topology::{occurrences, Topology};
use vstd::prelude::*;

verus! {

impl Topology {
    /// A graph without edges is well formed.
    pub proof fn lemma_isolated_wf(n: nat)
        requires
            n <= usize::MAX,
        ensures
            Topology::isolated(n).wf(),
            Topology::isolated(n).len() == n,
    {
    }

    /// What the lists of each vertex are after an edge was added.
    pub proof fn lemma_add_edge_lists(self, from: int, to: int)
        requires
            self.has_vertex(from),
            self.has_vertex(to),
        ensures
            self.add_edge(from, to).len() == self.len(),
            forall|u: int|
                self.has_vertex(u) ==> #[trigger] self.add_edge(from, to).succ(u) == if u == from {
                    self.succ(u).push(to as usize)
                } else {
                    self.succ(u)
                },
            forall|v: int|
                self.has_vertex(v) ==> #[trigger] self.add_edge(from, to).pred(v) == if v == to {
                    self.pred(v).push(from as usize)
                } else {
                    self.pred(v)
                },
    {
    }

    /// Adding an edge between two vertices keeps the graph well formed.
    pub proof fn lemma_add_edge_wf(self, from: int, to: int)
        requires
            self.wf(),
            self.has_vertex(from),
            self.has_vertex(to),
        ensures
            self.add_edge(from, to).wf(),
    {
        let g = self.add_edge(from, to);
        self.lemma_add_edge_lists(from, to);
        assert forall|u: int, j: int|
            g.has_vertex(u) && 0 <= j < g.succ(u).len() implies g.has_vertex(
            #[trigger] g.succ(u)[j] as int,
        ) by {
            if u == from && j == self.succ(u).len() {
            } else {
                assert(self.has_vertex(self.succ(u)[j] as int));
            }
        }
        assert forall|v: int, j: int|
            g.has_vertex(v) && 0 <= j < g.pred(v).len() implies g.has_vertex(
            #[trigger] g.pred(v)[j] as int,
        ) by {
            if v == to && j == self.pred(v).len() {
            } else {
                assert(self.has_vertex(self.pred(v)[j] as int));
            }
        }
        assert forall|u: int, v: int| g.has_vertex(u) && g.has_vertex(v) implies occurrences(
            g.succ(u),
            v,
        ) == occurrences(g.pred(v), u) by {
            assert(occurrences(self.succ(u), v) == occurrences(self.pred(v), u));
            lemma_occurrences_push(self.succ(u), to as usize, v);
            lemma_occurrences_push(self.pred(v), from as usize, u);
        }
    }

    /// Reversing every edge keeps the graph well formed.
    pub proof fn lemma_transpose_wf(self)
        requires
            self.wf(),
        ensures
            self.transpose().wf(),
            self.transpose().len() == self.len(),
    {
        let g = self.transpose();
        assert forall|u: int, j: int|
            g.has_vertex(u) && 0 <= j < g.succ(u).len() implies g.has_vertex(
            #[trigger] g.succ(u)[j] as int,
        ) by {
            assert(self.has_vertex(self.pred(u)[j] as int));
        }
        assert forall|v: int, j: int|
            g.has_vertex(v) && 0 <= j < g.pred(v).len() implies g.has_vertex(
            #[trigger] g.pred(v)[j] as int,
        ) by {
            assert(self.has_vertex(self.succ(v)[j] as int));
        }
        assert forall|u: int, v: int| g.has_vertex(u) && g.has_vertex(v) implies occurrences(
            g.succ(u),
            v,
        ) == occurrences(g.pred(v), u) by {
            assert(occurrences(self.succ(v), u) == occurrences(self.pred(u), v));
        }
    }

    /// Adding edges from one vertex lengthens its out-list by the targets,
    /// leaves the other out-lists, and keeps the graph well formed.
    pub proof fn lemma_add_edges(self, from: int, targets: Seq<usize>)
        requires
            self.wf(),
            self.has_vertex(from),
            forall|j: int| 0 <= j < targets.len() ==> (#[trigger] targets[j]) < self.len(),
        ensures
            self.add_edges(from, targets).wf(),
            self.add_edges(from, targets).len() == self.len(),
            forall|u: int|
                self.has_vertex(u) ==> #[trigger] self.add_edges(from, targets).succ(u) == if u
                    == from {
                    self.succ(u) + targets
                } else {
                    self.succ(u)
                },
        decreases targets.len(),
    {
        if targets.len() > 0 {
            let front = targets.drop_last();
            let mid = self.add_edges(from, front);
            self.lemma_add_edges(from, front);
            mid.lemma_add_edge_lists(from, targets.last() as int);
            mid.lemma_add_edge_wf(from, targets.last() as int);
            assert forall|u: int| self.has_vertex(u) implies #[trigger] self.add_edges(
                from,
                targets,
            ).succ(u) == if u == from {
                self.succ(u) + targets
            } else {
                self.succ(u)
            } by {
                if u == from {
                    assert((self.succ(u) + front).push(targets.last()) =~= self.succ(u) + targets);
                }
            }
        } else {
            assert forall|u: int| self.has_vertex(u) implies self.succ(u) + targets == self.succ(
                u,
            ) by {
                assert(self.succ(u) + targets =~= self.succ(u));
            }
        }
    }

    /// The graph made from adjacency lists is well formed; the out-list of
    /// each of the first `k` vertices is its list, and the other out-lists
    /// are empty.
    pub proof fn lemma_adjacency_prefix(lists: Seq<Seq<usize>>, k: nat)
        requires
            lists.len() <= usize::MAX,
            k <= lists.len(),
            forall|i: int, j: int|
                0 <= i < lists.len() && 0 <= j < lists[i].len() ==> (#[trigger] lists[i][j])
                    < lists.len(),
        ensures
            Topology::adjacency_prefix(lists, k).wf(),
            Topology::adjacency_prefix(lists, k).len() == lists.len(),
            forall|u: int|
                0 <= u < lists.len() ==> #[trigger] Topology::adjacency_prefix(lists, k).succ(u)
                    == if u < k {
                    lists[u]
                } else {
                    Seq::empty()
                },
        decreases k,
    {
        if k == 0 {
            Topology::lemma_isolated_wf(lists.len());
        } else {
            let before = Topology::adjacency_prefix(lists, (k - 1) as nat);
            Topology::lemma_adjacency_prefix(lists, (k - 1) as nat);
            before.lemma_add_edges(k - 1, lists[k - 1]);
            assert forall|u: int| 0 <= u < lists.len()
                implies #[trigger] Topology::adjacency_prefix(
                lists,
                k,
            ).succ(u) == if u < k {
                lists[u]
            } else {
                Seq::empty()
            } by {
                assert(before.has_vertex(u));
                if u == k - 1 {
                    assert(Seq::<usize>::empty() + lists[u] =~= lists[u]);
                }
            }
        }
    }
}

} // verus!
