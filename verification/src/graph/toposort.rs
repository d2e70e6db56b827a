use super::IndexGraph;
use crate::model::counting::{below, lemma_push_contains, lemma_push_distinct};
use crate::sort::sweep::Sweep;
use std::collections::VecDeque;
use vstd::prelude::*;

verus! {

impl IndexGraph {
    /// Kahn's algorithm. Emits the vertices without incoming edge in index
    /// order, then each vertex as soon as its last source has been emitted,
    /// first come first served. Gives the graph back, with every visit mark
    /// at 0 and the in-degree counters used up, when a cycle keeps some
    /// vertex from being emitted.
    pub(super) fn try_toposort_internal(self) -> (r: Result<Vec<usize>, IndexGraph>)
        requires
            self.wf(),
        ensures
            match r {
                Ok(order) => self@.is_topological_order(order@) && self@.first_come_first_served(
                    order@,
                ),
                Err(graph) => graph@ == self@ && graph.unmarked() && !self@.acyclic(),
            },
    {
        let ghost t = self@;
        let mut graph = self;
        let n = graph.vertices.len();
        let mut queue: VecDeque<usize> = VecDeque::new();
        let mut sorted: Vec<usize> = Vec::new();

        // enqueue vertices with in-degree zero
        let mut idx: usize = 0;
        while idx < n
            invariant
                idx <= n,
                n == graph.vertices@.len(),
                graph@ == t,
                t.wf(),
                t.len() == n,
                forall|k: int| 0 <= k < n ==> #[trigger] graph.in_counts()[k] == t.pred(k).len(),
                forall|k: int| 0 <= k < idx ==> #[trigger] graph.marks()[k] == 0,
                queue@.no_duplicates(),
                below(queue@, idx as nat),
                forall|a: int, b: int|
                    0 <= a < b < queue@.len() ==> (#[trigger] queue@[a]) < (#[trigger] queue@[b]),
                forall|a: int|
                    0 <= a < queue@.len() ==> t.pred((#[trigger] queue@[a]) as int).len() == 0,
                forall|v: usize|
                    v < idx ==> (graph.in_counts()[v as int] == 0
                        <==> #[trigger] queue@.contains(v)),
            decreases n - idx,
        {
            let ghost before = graph;
            let ghost waiting = queue@;
            // the out-degree counter serves as the visit mark of the
            // component search that may follow
            graph.vertices[idx].out_degree = 0;
            if graph.vertices[idx].in_degree == 0 {
                queue.push_back(idx);
                proof {
                    lemma_push_distinct(waiting, idx);
                    assert(before.in_counts()[idx as int] == t.pred(idx as int).len());
                    assert forall|a: int| 0 <= a < queue@.len() implies t.pred(
                        (#[trigger] queue@[a]) as int,
                    ).len() == 0 by {
                        if a < waiting.len() {
                            assert(queue@[a] == waiting[a]);
                        }
                    }
                }
            }
            proof {
                assert(graph@.vertices =~= t.vertices);
                assert(graph.in_counts() =~= before.in_counts());
                assert forall|v: usize| v < idx + 1 implies (graph.in_counts()[v as int] == 0
                    <==> #[trigger] queue@.contains(v)) by {
                    lemma_push_contains(waiting, idx, v);
                    if v < idx {
                        assert(waiting.contains(v) ==> v != idx);
                    } else {
                        if waiting.contains(v) {
                            let k = choose|k: int| 0 <= k < waiting.len() && waiting[k] == v;
                            assert(waiting[k] < idx);
                        }
                    }
                }
                assert forall|k: int| 0 <= k < idx + 1 implies #[trigger] graph.marks()[k] == 0 by {
                    if k < idx {
                        assert(before.marks()[k] == 0);
                    }
                }
            }
            idx += 1;
        }

        let ghost mut sweep = Sweep { counts: graph.in_counts(), sorted: sorted@, queue: queue@ };
        proof {
            sweep.lemma_begin(t);
            sweep.lemma_fifo_begin(t);
        }

        // add vertices from queue to sorted list
        // decrement in-degree of neighboring edges
        // add to queue if in-degree zero
        loop
            invariant
                n == graph.vertices@.len(),
                graph@ == t,
                t.wf(),
                t.len() == n,
                graph.unmarked(),
                sweep.steady(t),
                sweep.fifo(t, sorted@.len() as int, 0),
                sweep.counts == graph.in_counts(),
                sweep.sorted == sorted@,
                sweep.queue == queue@,
                sorted@.len() <= n,
            ensures
                queue@.len() == 0,
            decreases n - sorted@.len(),
        {
            let head = queue.pop_front();
            if head.is_none() {
                break ;
            }
            let idx = head.unwrap();
            sorted.push(idx);
            proof {
                sweep.lemma_take(t);
                sweep.lemma_fifo_take(t);
                sweep = sweep.take();
            }

            let degree = graph.vertices[idx].out_edges.len();
            for edge_idx in 0..degree
                invariant
                    n == graph.vertices@.len(),
                    graph@ == t,
                    t.wf(),
                    t.len() == n,
                    graph.unmarked(),
                    idx < n,
                    degree == t.succ(idx as int).len(),
                    sweep.draining(t, edge_idx as int),
                    sweep.fifo(t, sorted@.len() - 1, edge_idx as int),
                    sweep.sorted.last() == idx,
                    sweep.counts == graph.in_counts(),
                    sweep.sorted == sorted@,
                    sweep.queue == queue@,
            {
                let ghost before = graph;
                let next_idx = graph.vertices[idx].out_edges[edge_idx];
                proof {
                    sweep.lemma_relax(t, edge_idx as int);
                    sweep.lemma_fifo_relax(t, edge_idx as int);
                    assert(graph.in_counts()[next_idx as int] >= 1);
                }
                graph.vertices[next_idx].in_degree -= 1;
                if graph.vertices[next_idx].in_degree == 0 {
                    queue.push_back(next_idx);
                }
                proof {
                    sweep = sweep.relax(next_idx);
                    assert(graph@.vertices =~= t.vertices);
                    assert(graph.in_counts() =~= sweep.counts);
                    assert(graph.marks() =~= before.marks());
                }
            }
            proof {
                sweep.lemma_settle(t);
                sweep.lemma_fifo_settle(t, degree as int);
                sweep.lemma_bounded(t);
            }
        }

        // if every vertex appears in sorted list, sort is successful
        if sorted.len() == graph.vertices.len() {
            proof {
                sweep.lemma_complete(t);
                sweep.lemma_fifo_complete(t, sorted@.len() as int, 0);
            }
            Ok(sorted)
        } else {
            proof {
                sweep.lemma_stuck(t);
            }
            Err(graph)
        }
    }

    /// Sorts the vertices so that every edge leads from an earlier vertex
    /// to a later one. Succeeds exactly when the graph has no cycle;
    /// otherwise hands the graph back unchanged.
    pub fn try_toposort(self) -> (r: Result<Vec<usize>, IndexGraph>)
        requires
            self.wf(),
        ensures
            r is Ok <==> self@.acyclic(),
            match r {
                Ok(order) => self@.is_topological_order(order@) && self@.first_come_first_served(
                    order@,
                ),
                Err(graph) => graph@ == self@ && graph.wf(),
            },
    {
        match self.try_toposort_internal() {
            Ok(sorted) => {
                proof {
                    self@.lemma_order_means_acyclic(sorted@);
                }
                Ok(sorted)
            },
            Err(graph) => {
                let mut graph = graph;
                let n = graph.vertices.len();
                let mut idx: usize = 0;
                while idx < n
                    invariant
                        idx <= n,
                        n == graph.vertices@.len(),
                        graph@ == self@,
                        forall|k: int|
                            0 <= k < idx ==> (#[trigger] graph.vertices@[k]).degrees_match(),
                    decreases n - idx,
                {
                    graph.vertices[idx].in_degree = graph.vertices[idx].in_edges.len();
                    graph.vertices[idx].out_degree = graph.vertices[idx].out_edges.len();
                    proof {
                        assert(graph@.vertices =~= self@.vertices);
                    }
                    idx += 1;
                }
                Err(graph)
            },
        }
    }

    /// A topological order of the vertices, or `None` when the graph has a
    /// cycle.
    pub fn toposort(self) -> (r: Option<Vec<usize>>)
        requires
            self.wf(),
        ensures
            r is Some <==> self@.acyclic(),
            r matches Some(order) ==> self@.is_topological_order(order@)
                && self@.first_come_first_served(order@),
    {
        match self.try_toposort_internal() {
            Ok(sorted) => {
                proof {
                    self@.lemma_order_means_acyclic(sorted@);
                }
                Some(sorted)
            },
            Err(_) => None,
        }
    }
}

} // verus!
