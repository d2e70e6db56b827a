use super::IndexGraph;
use crate::model::topology::Topology;
use vstd::prelude::*;

verus! {

/// A handle on one vertex of a graph under construction: it adds edges from
/// and to that vertex without the caller naming it.
#[derive(Debug)]
pub struct IndexGraphBuilder<'g> {
    pub graph: &'g mut IndexGraph,
    pub index: usize,
}

impl IndexGraphBuilder<'_> {
    /// The graph as it stands.
    pub open spec fn current(&self) -> IndexGraph {
        *self.graph
    }

    /// The handle is on a vertex of a well-formed graph.
    pub open spec fn wf(&self) -> bool {
        self.current().wf() && self.index < self.current()@.len()
    }

    /// Returns a reference to the stored graph
    pub fn as_graph(&self) -> (g: &IndexGraph)
        ensures
            *g == self.current(),
    {
        self.graph
    }

    /// Returns a mutable reference to the stored graph
    pub fn as_mut_graph(&mut self) -> (g: &mut IndexGraph)
        ensures
            *g == old(self).current(),
            final(self).current() == *final(g),
            final(self).index == old(self).index,
            *final(final(self).graph) == *final(old(self).graph),
    {
        self.graph
    }

    /// Returns the stored index
    pub fn index(&self) -> (i: usize)
        ensures
            i == self.index,
    {
        self.index
    }

    /// Add an edge from the stored index to the passed index
    ///
    /// This method does not check for duplicate edges.
    pub fn add_out_edge(&mut self, index: usize)
        requires
            old(self).wf(),
            index < old(self).current()@.len(),
        ensures
            final(self).wf(),
            final(self).current()@ == old(self).current()@.add_edge(
                old(self).index as int,
                index as int,
            ),
            final(self).index == old(self).index,
            *final(final(self).graph) == *final(old(self).graph),
    {
        proof {
            old(self).current()@.lemma_add_edge_lists(self.index as int, index as int);
        }
        self.graph.add_edge(self.index, index)
    }

    /// Add an edge from the passed index to the stored index
    ///
    /// This method does not check for duplicate edges.
    pub fn add_in_edge(&mut self, index: usize)
        requires
            old(self).wf(),
            index < old(self).current()@.len(),
        ensures
            final(self).wf(),
            final(self).current()@ == old(self).current()@.add_edge(
                index as int,
                old(self).index as int,
            ),
            final(self).index == old(self).index,
            *final(final(self).graph) == *final(old(self).graph),
    {
        proof {
            old(self).current()@.lemma_add_edge_lists(index as int, self.index as int);
        }
        self.graph.add_edge(index, self.index)
    }
}

/// `i` is one of the first `n` positions.
pub open spec fn among(i: int, n: int) -> bool {
    0 <= i < n
}

/// `b` is the handle on vertex `i` of the graph `before`, and the callback
/// `f` can have returned from a call with `b` and `element`.
pub open spec fn handled<T, F: FnMut(IndexGraphBuilder<'_>, &T)>(
    f: F,
    b: IndexGraphBuilder<'_>,
    i: int,
    element: &T,
    before: IndexGraph,
) -> bool {
    b.index == i && b.current() == before && call_ensures(f, (b, element), ())
}

impl IndexGraph {
    /// Builds a graph with one vertex for each element of `g`: starting
    /// without edges, `f` is called once for each element, in order, with a
    /// handle on the vertex of that element.
    pub fn from_graph<T, F>(g: &[T], mut f: F) -> (graph: Self) where
        F: FnMut(IndexGraphBuilder<'_>, &T),

        requires
            forall|b: IndexGraphBuilder<'_>, i: int|
                0 <= i < g@.len() && b.index == i && b.wf() && b.current()@.len() == g@.len()
                    ==> #[trigger] call_requires(f, (b, &g@[i])),
            forall|b: IndexGraphBuilder<'_>, e: &T|
                b.wf() && #[trigger] call_ensures(f, (b, e), ()) ==> final(b.graph).wf()
                    && final(b.graph)@.len() == b.current()@.len(),
        ensures
            graph.wf(),
            graph@.len() == g@.len(),
            exists|steps: Seq<IndexGraph>|
                {
                    &&& #[trigger] steps.len() == g@.len() + 1
                    &&& steps[0]@ == Topology::isolated(g@.len())
                    &&& steps[g@.len() as int] == graph
                    &&& forall|i: int| #[trigger]
                        among(i, g@.len() as int) ==> exists|b: IndexGraphBuilder<'_>|
                            #[trigger] handled(f, b, i, &g@[i], steps[i]) && *final(b.graph)
                                == steps[i + 1]
                },
    {
        let mut graph = Self::with_vertices(g.len());
        let ghost mut steps: Seq<IndexGraph> = seq![graph];
        let ghost callback = f;

        let n = g.len();
        let mut idx: usize = 0;
        while idx < n
            invariant
                idx <= n,
                n == g@.len(),
                graph.wf(),
                graph@.len() == n,
                forall|b: IndexGraphBuilder<'_>, i: int|
                    0 <= i < g@.len() && b.index == i && b.wf() && b.current()@.len() == g@.len()
                        ==> #[trigger] call_requires(f, (b, &g@[i])),
                forall|b: IndexGraphBuilder<'_>, e: &T|
                    b.wf() && #[trigger] call_ensures(f, (b, e), ()) ==> final(b.graph).wf()
                        && final(b.graph)@.len() == b.current()@.len(),
                f == callback,
                steps.len() == idx + 1,
                steps[0]@ == Topology::isolated(g@.len()),
                steps[idx as int] == graph,
                forall|i: int| #[trigger]
                    among(i, idx as int) ==> exists|b: IndexGraphBuilder<'_>|
                        #[trigger] handled(f, b, i, &g@[i], steps[i]) && *final(b.graph)
                            == steps[i + 1],
            decreases n - idx,
        {
            let ghost before = steps;
            let builder = IndexGraphBuilder { graph: &mut graph, index: idx };
            let ghost b = builder;
            f(builder, &g[idx]);
            proof {
                steps = steps.push(graph);
                assert(handled(f, b, idx as int, &g@[idx as int], steps[idx as int])
                    && *final(b.graph) == steps[idx + 1]);
                assert forall|i: int| #[trigger] among(i, idx + 1) implies exists|
                    b: IndexGraphBuilder<'_>,
                |
                    #[trigger] handled(f, b, i, &g@[i], steps[i]) && *final(b.graph) == steps[i
                        + 1] by {
                    if i < idx {
                        assert(among(i, idx as int));
                        assert(steps[i] == before[i]);
                        assert(steps[i + 1] == before[i + 1]);
                        let w = choose|b: IndexGraphBuilder<'_>|
                            #[trigger] handled(f, b, i, &g@[i], before[i]) && *final(b.graph)
                                == before[i + 1];
                        assert(handled(f, w, i, &g@[i], steps[i])
                            && *final(w.graph) == steps[i + 1]);
                    }
                }
            }
            idx += 1;
        }
        proof {
            assert(idx as int == g@.len() as int);
            assert({
                &&& #[trigger] steps.len() == g@.len() + 1
                &&& steps[0]@ == Topology::isolated(g@.len())
                &&& steps[g@.len() as int] == graph
                &&& forall|i: int| #[trigger]
                    among(i, g@.len() as int) ==> exists|b: IndexGraphBuilder<'_>|
                        #[trigger] handled(f, b, i, &g@[i], steps[i]) && *final(b.graph)
                            == steps[i + 1]
            });
        }

        graph
    }
}

impl IndexGraph {
    /// Builds the graph in which vertex `i` has one edge to each entry of
    /// `g[i]`, in the order of the entries.
    pub fn from_adjacency_list(g: &[Vec<usize>]) -> (graph: Self)
        requires
            forall|i: int, j: int|
                0 <= i < g@.len() && 0 <= j < g@[i]@.len() ==> (#[trigger] g@[i]@[j]) < g@.len(),
        ensures
            graph.wf(),
            graph@ == Topology::from_adjacency(g.deep_view()),
            graph@.len() == g@.len(),
            forall|u: int| 0 <= u < g@.len() ==> #[trigger] graph@.succ(u) == g@[u]@,
    {
        let add_targets = |builder: IndexGraphBuilder<'_>, edges: &Vec<usize>|
            requires
                builder.wf(),
                forall|j: int|
                    0 <= j < edges@.len() ==> (#[trigger] edges@[j]) < builder.current()@.len(),
            ensures
                final(builder.graph)@ == builder.current()@.add_edges(builder.index as int, edges@),
                final(builder.graph)@.len() == builder.current()@.len(),
                final(builder.graph).wf(),
            {
                let ghost handle = builder;
                let mut builder = builder;
                let ghost start = builder.current()@;
                let count = edges.len();
                let mut k: usize = 0;
                while k < count
                    invariant
                        k <= count,
                        count == edges@.len(),
                        builder.wf(),
                        builder.index == handle.index,
                        *final(builder.graph) == *final(handle.graph),
                        start == handle.current()@,
                        builder.current()@.len() == start.len(),
                        start.wf(),
                        forall|j: int|
                            0 <= j < edges@.len() ==> (#[trigger] edges@[j]) < start.len(),
                        builder.current()@ == start.add_edges(
                            builder.index as int,
                            edges@.subrange(0, k as int),
                        ),
                    decreases count - k,
                {
                    proof {
                        start.lemma_add_edges(builder.index as int, edges@.subrange(0, k as int));
                    }
                    builder.add_out_edge(edges[k]);
                    proof {
                        assert(edges@.subrange(0, k + 1).drop_last() =~= edges@.subrange(
                            0,
                            k as int,
                        ));
                    }
                    k += 1;
                }
                proof {
                    assert(edges@.subrange(0, count as int) =~= edges@);
                    start.lemma_add_edges(builder.index as int, edges@);
                }
            };
        let graph = IndexGraph::from_graph(g, add_targets);
        proof {
            let lists = g.deep_view();
            let n = g@.len() as int;
            assert forall|i: int| 0 <= i < n implies #[trigger] lists[i] == g@[i]@ by {
                assert(g@[i].deep_view() =~= g@[i]@);
            }
            let steps = choose|steps: Seq<IndexGraph>|
                {
                    &&& #[trigger] steps.len() == g@.len() + 1
                    &&& steps[0]@ == Topology::isolated(g@.len())
                    &&& steps[g@.len() as int] == graph
                    &&& forall|i: int| #[trigger]
                        among(i, g@.len() as int) ==> exists|b: IndexGraphBuilder<'_>|
                            #[trigger] handled(add_targets, b, i, &g@[i], steps[i])
                                && *final(b.graph) == steps[i + 1]
                };
            let tops = Seq::new((n + 1) as nat, |i: int| steps[i]@);
            assert forall|i: int| #[trigger] among(i, n) implies tops[i + 1] == tops[i].add_edges(
                i,
                lists[i],
            ) by {
                let b = choose|b: IndexGraphBuilder<'_>|
                    #[trigger] handled(add_targets, b, i, &g@[i], steps[i]) && *final(b.graph)
                        == steps[i + 1];
                assert(call_ensures(add_targets, (b, &g@[i]), ()));
            }
            lemma_chain(lists, tops, n as nat);
            Topology::lemma_adjacency_prefix(lists, n as nat);
        }
        graph
    }
}

/// Graphs that each arise from the one before by adding the edges of the
/// next adjacency list are the graphs of the prefixes of the lists.
proof fn lemma_chain(lists: Seq<Seq<usize>>, tops: Seq<Topology>, k: nat)
    requires
        tops.len() == lists.len() + 1,
        tops[0] == Topology::isolated(lists.len()),
        forall|i: int| #[trigger]
            among(i, lists.len() as int) ==> tops[i + 1] == tops[i].add_edges(i, lists[i]),
        k <= lists.len(),
    ensures
        tops[k as int] == Topology::adjacency_prefix(lists, k),
    decreases k,
{
    if k > 0 {
        lemma_chain(lists, tops, (k - 1) as nat);
        assert(among(k - 1, lists.len() as int));
    }
}

} // verus!
