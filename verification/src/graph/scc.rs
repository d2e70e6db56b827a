use super::IndexGraph;
use crate::components::descent::{lemma_stack_weight_bound, stack_weight, Descent};
use crate::components::harvest::{Harvest, Round};
use crate::components::search::{
    claim_from, collect, finish_all, lemma_resume_claim_claim, lemma_resume_claim_drop,
    lemma_resume_claim_one, lemma_resume_claim_pass, lemma_resume_finish_descend,
    lemma_resume_finish_one, lemma_resume_finish_retreat, lemma_resume_finish_skip, marked,
    resume_claim, resume_finish,
};
use std::collections::VecDeque;
use vstd::prelude::*;

verus! {

/// The lists of vertex numbers that a vector of vectors holds.
pub(super) open spec fn lists(v: Seq<Vec<usize>>) -> Seq<Seq<usize>> {
    Seq::new(v.len(), |i: int| v[i]@)
}

impl IndexGraph {
    /// Kosaraju's algorithm, on a graph whose visit marks are all 0. A
    /// depth-first search along the outgoing edges, started at each vertex
    /// in index order that no earlier search has reached, records the
    /// vertices in the order in which it leaves them. Then, from the vertex
    /// left last to the one left first, a depth-first search along the
    /// incoming edges claims every vertex that no earlier search has
    /// claimed; what it claims is a component if it comes back to its
    /// start. Edges are followed in the order of the edge lists.
    pub(super) fn scc_internal(self) -> (cycles: Vec<Vec<usize>>)
        requires
            self@.wf(),
            self.unmarked(),
        ensures
            self@.cycle_components(lists(cycles@)),
            lists(cycles@) == self@.components_in_search_order(),
    {
        let ghost t = self@;
        let mut graph = self;
        let n = graph.vertices.len();

        let mut queue: VecDeque<usize> = VecDeque::new();
        let mut dfs_stack: Vec<(usize, usize)> = Vec::new();
        let ghost mut descent = Descent::fresh(t);
        let ghost all_finished = finish_all(t, Set::empty(), Seq::empty(), 0);
        proof {
            Descent::lemma_fresh(t);
            assert(descent.marks =~= graph.marks());
            assert(marked(descent.marks, 1) =~= Set::empty());
            assert(queue@ =~= Seq::empty());
        }

        // add vertices to queue in post-order
        let mut start: usize = 0;
        while start < n
            invariant
                start <= n,
                n == graph.vertices@.len(),
                graph@ == t,
                t.wf(),
                t.len() == n,
                descent.inv(t),
                descent.marks == graph.marks(),
                descent.stack == dfs_stack@,
                descent.finished == queue@,
                dfs_stack@.len() == 0,
                forall|v: int| 0 <= v < start ==> #[trigger] descent.marks[v] == 1,
                finish_all(t, marked(descent.marks, 1), queue@, start as int) == all_finished,
            decreases n - start,
        {
            if graph.vertices[start].out_degree == 0 {
                let ghost seen = marked(descent.marks, 1);
                graph.vertices[start].out_degree = 1;
                dfs_stack.push((start, 0));
                proof {
                    descent.lemma_enter(t, start);
                    descent = descent.enter(start);
                    assert(graph@.vertices =~= t.vertices);
                    assert(descent.marks =~= graph.marks());
                    assert(marked(descent.marks, 1) =~= seen.insert(start as int));
                    assert(dfs_stack@ =~= seq![(start, 0usize)]);
                    lemma_resume_finish_one(t, seen.insert(start as int), queue@, start, 0);
                }
                loop
                    invariant
                        start < n,
                        n == graph.vertices@.len(),
                        graph@ == t,
                        t.wf(),
                        t.len() == n,
                        descent.inv(t),
                        descent.marks == graph.marks(),
                        descent.stack == dfs_stack@,
                        descent.finished == queue@,
                        forall|v: int| 0 <= v <= start ==> #[trigger] descent.marks[v] == 1,
                        finish_all(
                            t,
                            resume_finish(t, marked(descent.marks, 1), queue@, dfs_stack@).0,
                            resume_finish(t, marked(descent.marks, 1), queue@, dfs_stack@).1,
                            start + 1,
                        ) == all_finished,
                    ensures
                        dfs_stack@.len() == 0,
                    decreases descent.untouched(t), stack_weight(t, descent.stack, false),
                {
                    let ghost seen = marked(descent.marks, 1);
                    let ghost out = queue@;
                    let top = dfs_stack.pop();
                    if top.is_none() {
                        break ;
                    }
                    let (idx, edge_idx) = top.unwrap();
                    let ghost rest = dfs_stack@;
                    proof {
                        assert(descent.stack.last() == descent.stack[descent.stack.len() - 1]);
                        assert(descent.stack.last() == (idx, edge_idx));
                        assert(idx < n);
                        assert(descent.stack =~= rest.push((idx, edge_idx)));
                    }
                    if edge_idx < graph.vertices[idx].out_edges.len() {
                        dfs_stack.push((idx, edge_idx + 1));
                        let next_idx = graph.vertices[idx].out_edges[edge_idx];
                        proof {
                            descent.lemma_advance(t);
                            descent = descent.advance();
                        }
                        if graph.vertices[next_idx].out_degree == 0 {
                            graph.vertices[next_idx].out_degree = 1;
                            dfs_stack.push((next_idx, 0));
                            proof {
                                descent.lemma_enter(t, next_idx);
                                descent = descent.enter(next_idx);
                                assert(graph@.vertices =~= t.vertices);
                                assert(descent.marks =~= graph.marks());
                                assert(marked(descent.marks, 1) =~= seen.insert(next_idx as int));
                                lemma_resume_finish_descend(t, seen, out, rest, idx, edge_idx);
                            }
                        } else {
                            proof {
                                descent.lemma_skip(t, next_idx as int);
                                lemma_resume_finish_skip(t, seen, out, rest, idx, edge_idx);
                            }
                        }
                    } else {
                        queue.push_back(idx);
                        proof {
                            descent.lemma_retreat(t);
                            descent = descent.retreat();
                            lemma_resume_finish_retreat(t, seen, out, rest, idx, edge_idx);
                        }
                    }
                    proof {
                        lemma_stack_weight_bound(t, descent.stack, false);
                    }
                }
            }
            start += 1;
        }

        proof {
            descent.lemma_finish(t);
        }
        let ghost finish = descent.summary();
        let ghost mut harvest = Harvest::fresh(t, finish);
        proof {
            Harvest::lemma_fresh(t, finish);
            assert(harvest.marks =~= graph.marks());
            assert(queue@ =~= finish.finished.subrange(0, harvest.remaining));
            assert(finish.finished == t.finishing_order());
            assert(marked(harvest.marks, 2) =~= Set::empty());
        }

        // collect cycles by depth-first search in opposite edge direction
        // from each vertex in queue
        let mut cycles: Vec<Vec<usize>> = Vec::new();
        proof {
            assert(lists(cycles@) =~= harvest.components);
        }
        loop
            invariant
                n == graph.vertices@.len(),
                graph@ == t,
                t.wf(),
                t.len() == n,
                finish.complete(t),
                harvest.inv(t, finish),
                harvest.marks == graph.marks(),
                queue@ == finish.finished.subrange(0, harvest.remaining),
                lists(cycles@) == harvest.components,
                dfs_stack@.len() == 0,
                finish.finished == t.finishing_order(),
                collect(
                    t,
                    finish.finished,
                    marked(harvest.marks, 2),
                    harvest.components,
                    harvest.remaining,
                ) == t.components_in_search_order(),
            ensures
                harvest.remaining == 0,
            decreases queue@.len(),
        {
            let last = queue.pop_back();
            if last.is_none() {
                break ;
            }
            let root_idx = last.unwrap();
            proof {
                assert(root_idx == harvest.root(finish));
                assert(queue@ =~= finish.finished.subrange(0, harvest.remaining - 1));
            }
            if graph.vertices[root_idx].out_degree == 2 {
                proof {
                    assert(marked(harvest.marks, 2).contains(root_idx as int));
                    harvest.lemma_pass_over(t, finish);
                    harvest = harvest.pass_over();
                }
                continue ;
            }
            let mut cur_cycle: Vec<usize> = Vec::new();

            dfs_stack.push((root_idx, 0));
            let ghost mut round = Round::begin(harvest.marks, root_idx);
            let ghost found = claim_from(t, marked(harvest.marks, 2), Seq::empty(), root_idx, 0);
            proof {
                Round::lemma_begin(t, finish, harvest.marks, root_idx);
                assert(round.stack =~= dfs_stack@);
                assert(round.members =~= cur_cycle@);
                lemma_resume_claim_one(t, marked(harvest.marks, 2), Seq::empty(), root_idx, 0);
            }

            loop
                invariant
                    n == graph.vertices@.len(),
                    graph@ == t,
                    t.wf(),
                    t.len() == n,
                    finish.complete(t),
                    harvest.inv(t, finish),
                    harvest.remaining > 0,
                    root_idx == harvest.root(finish),
                    round.inv(t, finish, harvest.marks, root_idx),
                    round.marks == graph.marks(),
                    round.stack == dfs_stack@,
                    round.members == cur_cycle@,
                    round.members.len() <= n,
                    resume_claim(t, marked(round.marks, 2), cur_cycle@, dfs_stack@) == found,
                ensures
                    dfs_stack@.len() == 0,
                decreases n - round.members.len(), stack_weight(t, round.stack, true),
            {
                let ghost claimed = marked(round.marks, 2);
                let ghost members = cur_cycle@;
                let top = dfs_stack.pop();
                if top.is_none() {
                    break ;
                }
                let (idx, edge_idx) = top.unwrap();
                let ghost rest = dfs_stack@;
                proof {
                    assert(round.stack.last() == round.stack[round.stack.len() - 1]);
                    assert(round.stack.last() == (idx, edge_idx));
                    assert(idx < n);
                    assert(round.stack =~= rest.push((idx, edge_idx)));
                }
                if edge_idx < graph.vertices[idx].in_edges.len() {
                    dfs_stack.push((idx, edge_idx + 1));

                    let next_idx = graph.vertices[idx].in_edges[edge_idx];
                    proof {
                        assert(t.has_vertex(t.pred(idx as int)[edge_idx as int] as int));
                    }
                    if graph.vertices[next_idx].out_degree == 1 {
                        proof {
                            round.lemma_claim(t, finish, harvest, root_idx);
                            round = round.claim(next_idx);
                        }
                        graph.vertices[next_idx].out_degree = 2;
                        dfs_stack.push((next_idx, 0));
                        cur_cycle.push(next_idx);
                        proof {
                            assert(graph@.vertices =~= t.vertices);
                            assert(round.marks =~= graph.marks());
                            round.lemma_members_bounded(t, finish, harvest.marks, root_idx);
                            assert(marked(round.marks, 2) =~= claimed.insert(next_idx as int));
                            lemma_resume_claim_claim(t, claimed, members, rest, idx, edge_idx);
                        }
                    } else {
                        proof {
                            round.lemma_pass(t, finish, harvest.marks, root_idx);
                            round = round.pass();
                            lemma_resume_claim_pass(t, claimed, members, rest, idx, edge_idx);
                        }
                    }
                } else {
                    proof {
                        round.lemma_drop(t, finish, harvest.marks, root_idx);
                        round = round.drop_top();
                        lemma_resume_claim_drop(t, claimed, members, rest, idx, edge_idx);
                    }
                }
                proof {
                    lemma_stack_weight_bound(t, round.stack, true);
                }
            }

            proof {
                assert(found == (marked(round.marks, 2), cur_cycle@));
                assert(!marked(harvest.marks, 2).contains(root_idx as int));
            }
            if graph.vertices[root_idx].out_degree == 2 {
                proof {
                    assert(found.0.contains(root_idx as int));
                    round.lemma_close_found(t, finish, harvest, root_idx);
                    harvest = harvest.gather(round);
                }
                cycles.push(cur_cycle);
                proof {
                    assert(lists(cycles@) =~= harvest.components);
                }
            } else {
                proof {
                    assert(!found.0.contains(root_idx as int));
                    round.lemma_close_alone(t, finish, harvest, root_idx);
                    harvest = harvest.set_aside(finish);
                    assert(marked(harvest.marks, 2) =~= found.0.insert(root_idx as int));
                }
                graph.vertices[root_idx].out_degree = 2;
                proof {
                    assert(graph@.vertices =~= t.vertices);
                    assert(harvest.marks =~= graph.marks());
                }
            }
        }

        proof {
            harvest.lemma_done(t, finish);
        }
        cycles
    }

    /// The strongly connected components that hold a cycle: each one once
    /// and whole, its vertices in the order in which the search claimed
    /// them, and none reachable from a later one. A vertex on no cycle is
    /// in no component.
    pub fn scc(self) -> (cycles: Vec<Vec<usize>>)
        requires
            self.wf(),
        ensures
            self@.cycle_components(cycles.deep_view()),
            cycles.deep_view() == self@.components_in_search_order(),
    {
        let mut graph = self;
        let n = graph.vertices.len();
        let mut idx: usize = 0;
        while idx < n
            invariant
                idx <= n,
                n == graph.vertices@.len(),
                graph@ == self@,
                forall|k: int| 0 <= k < idx ==> #[trigger] graph.marks()[k] == 0,
            decreases n - idx,
        {
            let ghost before = graph;
            graph.vertices[idx].out_degree = 0;
            proof {
                assert(graph@.vertices =~= self@.vertices);
                assert forall|k: int| 0 <= k < idx + 1 implies #[trigger] graph.marks()[k] == 0 by {
                    if k < idx {
                        assert(before.marks()[k] == 0);
                    }
                }
            }
            idx += 1;
        }

        let cycles = graph.scc_internal();
        proof {
            lemma_lists_deep_view(cycles);
        }
        cycles
    }

    /// A topological order of the vertices, or, when the graph has a cycle
    /// and therefore no such order, its components that hold a cycle.
    pub fn toposort_or_scc(self) -> (r: Result<Vec<usize>, Vec<Vec<usize>>>)
        requires
            self.wf(),
        ensures
            r is Ok <==> self@.acyclic(),
            match r {
                Ok(order) => self@.is_topological_order(order@) && self@.first_come_first_served(
                    order@,
                ),
                Err(cycles) => self@.cycle_components(cycles.deep_view()) && cycles.len() > 0
                    && cycles.deep_view() == self@.components_in_search_order(),
            },
    {
        match self.try_toposort_internal() {
            Ok(sorted) => {
                proof {
                    self@.lemma_order_means_acyclic(sorted@);
                }
                Ok(sorted)
            },
            Err(graph) => {
                let cycles = graph.scc_internal();
                proof {
                    lemma_lists_deep_view(cycles);
                    self@.lemma_cycle_is_listed(cycles.deep_view());
                }
                Err(cycles)
            },
        }
    }
}

/// The deep view of a vector of vectors of numbers holds their views.
proof fn lemma_lists_deep_view(v: Vec<Vec<usize>>)
    ensures
        v.deep_view() == lists(v@),
{
    assert forall|i: int| 0 <= i < v@.len() implies #[trigger] v.deep_view()[i] == v@[i]@ by {
        assert(v@[i].deep_view() =~= v@[i]@);
    }
    assert(v.deep_view() =~= lists(v@));
}

} // verus!
