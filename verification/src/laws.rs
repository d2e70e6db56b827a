use crate::model::counting::{below, lemma_distinct_bounded};
use crate::sort::fifo::{earlier, freed_at, lemma_freed_at_stable};
use crate::model::topology::{listed, Topology};
use vstd::prelude::*;

verus! {

impl Topology {
    /// Reversing every edge twice gives the graph back.
    pub proof fn law_transpose_involution(self)
        ensures
            self.transpose().transpose() == self,
    {
        assert(self.transpose().transpose().vertices =~= self.vertices);
    }

    /// Reversing a graph turns every edge around.
    pub proof fn law_transpose_reverses(self, u: int, v: int)
        requires
            self.wf(),
        ensures
            self.transpose().has_edge(u, v) <==> self.has_edge(v, u),
    {
        if self.has_vertex(u) && self.has_vertex(v) {
            self.lemma_edge_in_pred(v, u);
            assert(self.transpose().succ(u) == self.pred(u));
        }
    }

    /// Every vertex of a listed component has a way back to itself.
    pub proof fn law_member_on_cycle(self, comps: Seq<Seq<usize>>, i: int, j: int)
        requires
            self.cycle_components(comps),
            0 <= i < comps.len(),
            0 <= j < comps[i].len(),
        ensures
            self.on_cycle(comps[i][j] as int),
    {
        assert(self.has_vertex(comps[i][j] as int));
        assert(comps[i].contains(comps[i][j]));
        assert(listed(comps, comps[i][j]));
    }

    /// Two vertices stand in the same component exactly when each can be
    /// reached from the other.
    pub proof fn law_component_is_class(
        self,
        comps: Seq<Seq<usize>>,
        i: int,
        a: int,
        k: int,
        b: int,
    )
        requires
            self.cycle_components(comps),
            0 <= i < comps.len(),
            0 <= a < comps[i].len(),
            0 <= k < comps.len(),
            0 <= b < comps[k].len(),
        ensures
            i == k <==> self.strongly_connected(comps[i][a] as int, comps[k][b] as int),
    {
        let x = comps[i][a];
        let y = comps[k][b];
        assert(self.has_vertex(comps[k][b] as int));
        assert(comps[k].contains(y));
        assert(comps[i].contains(y) <==> self.strongly_connected(comps[i][a] as int, y as int));
        if i < k {
            assert(!self.reaches(comps[k][b] as int, comps[i][a] as int));
        }
        if k < i {
            assert(!self.reaches(comps[i][a] as int, comps[k][b] as int));
        }
    }

    /// A graph has either a topological order or components that hold a
    /// cycle, never both: with an order the list of components is empty,
    /// and it is empty only in a graph without cycle.
    pub proof fn law_order_excludes_components(self, order: Seq<usize>, comps: Seq<Seq<usize>>)
        requires
            self.wf(),
            self.cycle_components(comps),
        ensures
            self.is_topological_order(order) ==> comps.len() == 0,
            comps.len() == 0 <==> self.acyclic(),
    {
        if self.is_topological_order(order) {
            self.lemma_order_means_acyclic(order);
        }
        if !self.acyclic() {
            self.lemma_cycle_is_listed(comps);
        }
        if comps.len() > 0 {
            assert(comps[0].len() > 0);
            self.law_member_on_cycle(comps, 0, 0);
        }
    }

    /// In a topological order all sources of a vertex stand before it.
    proof fn lemma_sources_in_prefix(self, order: Seq<usize>, k: int)
        requires
            self.wf(),
            self.is_topological_order(order),
            0 <= k < order.len(),
        ensures
            forall|j: int|
                0 <= j < self.pred(order[k] as int).len() ==> order.subrange(0, k).contains(
                    #[trigger] self.pred(order[k] as int)[j],
                ),
    {
        let x = order[k];
        assert(below(order, self.len())) by {
            assert forall|i: int| 0 <= i < order.len()
                implies (#[trigger] order[i]) < self.len() by {
                assert(self.has_vertex(order[i] as int));
            }
        }
        lemma_distinct_bounded(order, self.len());
        assert(self.has_vertex(order[k] as int));
        assert forall|j: int| 0 <= j < self.pred(x as int).len() implies order.subrange(
            0,
            k,
        ).contains(#[trigger] self.pred(x as int)[j]) by {
            let w = self.pred(x as int)[j];
            self.lemma_edge_from(x as int, j);
            assert(order.contains(w));
            let c = choose|c: int| 0 <= c < order.len() && order[c] == w;
            assert(self.has_edge(order[c] as int, order[k] as int));
            assert(order.subrange(0, k)[c] == w);
        }
    }

    /// Two topological orders that both serve first come, first served
    /// agree on their first `k` vertices.
    proof fn lemma_orders_agree(self, first: Seq<usize>, second: Seq<usize>, k: int)
        requires
            self.wf(),
            self.is_topological_order(first),
            self.first_come_first_served(first),
            self.is_topological_order(second),
            self.first_come_first_served(second),
            0 <= k <= self.len(),
        ensures
            first.subrange(0, k) == second.subrange(0, k),
        decreases k,
    {
        if k == 0 {
            assert(first.subrange(0, 0) =~= second.subrange(0, 0));
        } else {
            let m = k - 1;
            self.lemma_orders_agree(first, second, m);
            let prefix = first.subrange(0, m);
            assert forall|i: int| 0 <= i < m implies first[i] == second[i] by {
                assert(first.subrange(0, m)[i] == second.subrange(0, m)[i]);
            }
            let x = first[m];
            let y = second[m];
            if x != y {
                assert(below(first, self.len()) && below(second, self.len())) by {
                    assert forall|i: int| 0 <= i < first.len() implies (#[trigger] first[i])
                        < self.len() by {
                        assert(self.has_vertex(first[i] as int));
                    }
                    assert forall|i: int| 0 <= i < second.len() implies (#[trigger] second[i])
                        < self.len() by {
                        assert(self.has_vertex(second[i] as int));
                    }
                }
                lemma_distinct_bounded(first, self.len());
                lemma_distinct_bounded(second, self.len());
                assert(self.has_vertex(first[m] as int));
                assert(self.has_vertex(second[m] as int));
                assert(second.contains(x));
                assert(first.contains(y));
                let b = choose|b: int| 0 <= b < second.len() && second[b] == x;
                let a = choose|a: int| 0 <= a < first.len() && first[a] == y;
                assert(b > m) by {
                    if b < m {
                        assert(first[b] == second[b]);
                    }
                }
                assert(a > m) by {
                    if a < m {
                        assert(first[a] == second[a]);
                    }
                }
                self.lemma_sources_in_prefix(first, m);
                self.lemma_sources_in_prefix(second, m);
                lemma_freed_at_stable(self, prefix, first, x);
                lemma_freed_at_stable(self, prefix, second, x);
                lemma_freed_at_stable(self, prefix, first, y);
                lemma_freed_at_stable(self, prefix, second, y);
                assert(earlier(freed_at(self, first, first[m]), freed_at(self, first, first[a])));
                assert(earlier(freed_at(self, second, second[m]), freed_at(self, second,
                    second[b])));
                assert(false);
            }
            assert(first.subrange(0, k) =~= second.subrange(0, k));
        }
    }

    /// A graph has at most one topological order that serves first come,
    /// first served.
    pub proof fn law_sort_is_determined(self, first: Seq<usize>, second: Seq<usize>)
        requires
            self.wf(),
            self.is_topological_order(first),
            self.first_come_first_served(first),
            self.is_topological_order(second),
            self.first_come_first_served(second),
        ensures
            first == second,
    {
        self.lemma_orders_agree(first, second, self.len() as int);
        assert(first.subrange(0, self.len() as int) =~= first);
        assert(second.subrange(0, self.len() as int) =~= second);
    }
}

} // verus!
