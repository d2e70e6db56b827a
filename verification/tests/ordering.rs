use index_graph::graph::IndexGraph;

fn graph(n: usize, edges: &[(usize, usize)]) -> IndexGraph {
    let mut g = IndexGraph::with_vertices(n);
    for &(from, to) in edges {
        g.add_edge(from, to);
    }
    g
}

fn position(order: &[usize], v: usize) -> usize {
    order.iter().position(|&x| x == v).unwrap()
}

fn assert_topological(n: usize, edges: &[(usize, usize)], order: &[usize]) {
    let mut sorted = order.to_vec();
    sorted.sort();
    assert_eq!(sorted, (0..n).collect::<Vec<usize>>());
    for &(from, to) in edges {
        assert!(position(order, from) < position(order, to));
    }
}

#[test]
fn empty_graph_sorts_to_empty_order() {
    assert_eq!(IndexGraph::new().try_toposort().ok(), Some(vec![]));
    assert_eq!(IndexGraph::new().toposort(), Some(vec![]));
    assert_eq!(IndexGraph::new().toposort_or_scc(), Ok(vec![]));
}

#[test]
fn empty_graph_has_no_components() {
    assert_eq!(IndexGraph::new().scc(), Vec::<Vec<usize>>::new());
    assert_eq!(IndexGraph::with_vertices(0).scc(), Vec::<Vec<usize>>::new());
}

#[test]
fn isolated_vertices_sort_in_index_order() {
    assert_eq!(IndexGraph::with_vertices(4).toposort(), Some(vec![0, 1, 2, 3]));
}

#[test]
fn isolated_vertices_have_no_components() {
    assert_eq!(IndexGraph::with_vertices(3).scc(), Vec::<Vec<usize>>::new());
}

#[test]
fn chain_sorts_along_its_edges() {
    let g = graph(3, &[(0, 1), (1, 2)]);
    assert_eq!(g.toposort_or_scc(), Ok(vec![0, 1, 2]));
}

#[test]
fn reversed_chain_sorts_backwards() {
    let g = graph(3, &[(2, 1), (1, 0)]);
    assert_eq!(g.toposort(), Some(vec![2, 1, 0]));
}

#[test]
fn diamond_sorts() {
    let edges = [(0, 1), (0, 2), (1, 3), (2, 3), (3, 4)];
    let order = graph(5, &edges).try_toposort().ok().unwrap();
    assert_topological(5, &edges, &order);
    assert_eq!(order[0], 0);
    assert_eq!(order[4], 4);
    assert!(position(&order, 0) < position(&order, 1));
    assert!(position(&order, 0) < position(&order, 2));
    assert!(position(&order, 1) < position(&order, 3));
    assert!(position(&order, 2) < position(&order, 3));
}

#[test]
fn diamond_sorts_first_come_first_served() {
    let g = graph(5, &[(0, 1), (0, 2), (1, 3), (2, 3), (3, 4)]);
    assert_eq!(g.toposort(), Some(vec![0, 1, 2, 3, 4]));
    let g = graph(5, &[(0, 2), (0, 1), (1, 3), (2, 3), (3, 4)]);
    assert_eq!(g.toposort(), Some(vec![0, 2, 1, 3, 4]));
}

#[test]
fn sources_come_first_in_index_order() {
    let g = graph(5, &[(4, 0), (2, 1), (3, 1)]);
    assert_eq!(g.toposort(), Some(vec![2, 3, 4, 1, 0]));
}

#[test]
fn vertex_waits_for_its_last_source() {
    let g = graph(4, &[(0, 3), (0, 1), (1, 2), (2, 3)]);
    assert_eq!(g.toposort(), Some(vec![0, 1, 2, 3]));
}

#[test]
fn duplicate_edges_are_counted_each() {
    let g = graph(3, &[(0, 1), (0, 1), (1, 2), (0, 2)]);
    assert_eq!(g.toposort(), Some(vec![0, 1, 2]));
}

#[test]
fn three_cycle_does_not_sort() {
    let g = graph(3, &[(0, 1), (1, 2), (2, 0)]);
    assert!(g.clone().try_toposort().is_err());
    assert_eq!(g.toposort(), None);
}

#[test]
fn three_cycle_is_one_component() {
    let g = graph(3, &[(0, 1), (1, 2), (2, 0)]);
    let cycles = g.toposort_or_scc().unwrap_err();
    assert_eq!(cycles.len(), 1);
    let mut members = cycles[0].clone();
    members.sort();
    assert_eq!(members, vec![0, 1, 2]);
}

#[test]
fn three_cycle_members_come_in_search_order() {
    let g = graph(3, &[(0, 1), (1, 2), (2, 0)]);
    assert_eq!(g.clone().scc(), vec![vec![2, 1, 0]]);
    assert_eq!(g.toposort_or_scc(), Err(vec![vec![2, 1, 0]]));
}

#[test]
fn self_loop_does_not_sort() {
    let g = graph(1, &[(0, 0)]);
    assert!(g.clone().try_toposort().is_err());
    assert_eq!(g.toposort(), None);
}

#[test]
fn self_loop_is_one_component() {
    let g = graph(1, &[(0, 0)]);
    assert_eq!(g.clone().scc(), vec![vec![0]]);
    assert_eq!(g.toposort_or_scc(), Err(vec![vec![0]]));
}

#[test]
fn acyclic_graph_has_no_components() {
    let g = graph(5, &[(0, 1), (0, 2), (1, 3), (2, 3), (3, 4)]);
    assert_eq!(g.scc(), Vec::<Vec<usize>>::new());
}

#[test]
fn failed_sort_hands_the_graph_back() {
    let g = graph(3, &[(0, 1), (1, 2), (2, 1)]);
    let back = g.try_toposort().unwrap_err();
    assert_eq!(back[0].out_edges, vec![1]);
    assert_eq!(back[1].out_edges, vec![2]);
    assert_eq!(back[1].in_edges, vec![0, 2]);
    assert_eq!(back[2].out_edges, vec![1]);
    assert_eq!(back[2].in_edges, vec![1]);
}

#[test]
fn graph_handed_back_can_be_queried_again() {
    let g = graph(3, &[(0, 1), (1, 2), (2, 1)]);
    let back = g.try_toposort().unwrap_err();
    let again = back.try_toposort().unwrap_err();
    assert_eq!(again.clone().toposort_or_scc(), Err(vec![vec![2, 1]]));
    let mut mended = again;
    mended.add_edge(0, 2);
    assert_eq!(mended.scc(), vec![vec![2, 1]]);
}

#[test]
fn cycle_away_from_vertex_zero_is_found() {
    let g = graph(3, &[(1, 2), (2, 1)]);
    assert_eq!(g.clone().scc(), vec![vec![2, 1]]);
    assert_eq!(g.toposort_or_scc(), Err(vec![vec![2, 1]]));
}

#[test]
fn cycle_behind_vertex_zero_is_found() {
    let g = graph(3, &[(1, 0), (1, 2), (2, 1)]);
    assert_eq!(g.toposort_or_scc(), Err(vec![vec![2, 1]]));
}

#[test]
fn two_components_come_upstream_first() {
    let g = graph(4, &[(0, 1), (1, 0), (1, 2), (2, 3), (3, 2)]);
    assert_eq!(g.scc(), vec![vec![1, 0], vec![3, 2]]);
}

#[test]
fn vertices_off_the_cycle_are_left_out() {
    // 0 -> 1 -> 2 -> 1, 2 -> 3
    let g = graph(4, &[(0, 1), (1, 2), (2, 1), (2, 3)]);
    assert_eq!(g.toposort_or_scc(), Err(vec![vec![2, 1]]));
}

#[test]
fn self_loop_beside_a_chain() {
    let g = graph(3, &[(0, 1), (1, 1), (1, 2)]);
    assert_eq!(g.toposort_or_scc(), Err(vec![vec![1]]));
}

#[test]
fn two_cycles_through_one_vertex_are_one_component() {
    let g = graph(3, &[(0, 1), (1, 0), (0, 2), (2, 0)]);
    let cycles = g.scc();
    assert_eq!(cycles.len(), 1);
    let mut members = cycles[0].clone();
    members.sort();
    assert_eq!(members, vec![0, 1, 2]);
}

#[test]
fn every_member_has_a_way_back() {
    fn reaches(edges: &[(usize, usize)], n: usize, from: usize, to: usize) -> bool {
        let mut seen = vec![false; n];
        let mut work = vec![from];
        while let Some(v) = work.pop() {
            for &(a, b) in edges {
                if a == v {
                    if b == to {
                        return true;
                    }
                    if !seen[b] {
                        seen[b] = true;
                        work.push(b);
                    }
                }
            }
        }
        false
    }
    let edges = [(0, 1), (1, 2), (2, 0), (2, 3), (3, 4), (4, 3), (5, 5), (4, 6)];
    let cycles = graph(7, &edges).scc();
    let mut listed = Vec::new();
    for cycle in &cycles {
        for &v in cycle {
            assert!(reaches(&edges, 7, v, v));
            listed.push(v);
        }
    }
    listed.sort();
    assert_eq!(listed, vec![0, 1, 2, 3, 4, 5]);
    assert!(!reaches(&edges, 7, 6, 6));
}

#[test]
fn sort_and_components_exclude_each_other() {
    let acyclic = graph(3, &[(0, 1), (0, 2)]);
    assert!(acyclic.clone().try_toposort().is_ok());
    assert!(acyclic.clone().scc().is_empty());
    assert!(acyclic.toposort_or_scc().is_ok());
    let cyclic = graph(3, &[(0, 1), (1, 0)]);
    assert!(cyclic.clone().try_toposort().is_err());
    assert!(!cyclic.clone().scc().is_empty());
    assert!(!cyclic.toposort_or_scc().unwrap_err().is_empty());
}

#[test]
fn vertex_is_freed_by_the_last_edge_to_it() {
    let g = graph(3, &[(0, 1), (0, 2), (0, 1)]);
    assert_eq!(g.toposort(), Some(vec![0, 2, 1]));
}

#[test]
fn waiting_vertices_are_served_in_turn() {
    // 0 frees 2 and 3, then 1 frees 4, then 2 frees 5.
    let g = graph(6, &[(0, 2), (0, 3), (1, 4), (2, 5), (3, 5), (4, 5)]);
    assert_eq!(g.toposort_or_scc(), Ok(vec![0, 1, 2, 3, 4, 5]));
    let g = graph(6, &[(1, 4), (0, 3), (0, 2), (4, 5), (3, 5), (2, 5)]);
    assert_eq!(g.toposort_or_scc(), Ok(vec![0, 1, 3, 2, 4, 5]));
}

#[test]
fn members_come_in_the_order_of_the_backward_search() {
    let g = graph(4, &[(0, 1), (1, 2), (2, 3), (3, 0), (2, 0)]);
    assert_eq!(g.scc(), vec![vec![3, 2, 1, 0]]);
    let g = graph(4, &[(0, 1), (1, 2), (2, 3), (2, 0), (3, 0)]);
    assert_eq!(g.scc(), vec![vec![2, 1, 0, 3]]);
}

#[test]
fn search_starts_anew_at_each_unreached_vertex() {
    // two separate cycles and a vertex between them
    let g = graph(5, &[(3, 4), (4, 3), (0, 1), (1, 0)]);
    assert_eq!(g.scc(), vec![vec![4, 3], vec![1, 0]]);
}

#[test]
fn components_of_a_chain_of_cycles() {
    // {0,1} -> {2,3} -> {4}
    let edges = [(0, 1), (1, 0), (1, 2), (2, 3), (3, 2), (3, 4), (4, 4)];
    let cycles = graph(5, &edges).toposort_or_scc().unwrap_err();
    assert_eq!(cycles, vec![vec![1, 0], vec![3, 2], vec![4]]);
}

#[test]
fn duplicate_edges_in_a_cycle_list_each_member_once() {
    let g = graph(2, &[(0, 1), (0, 1), (1, 0), (1, 0)]);
    assert_eq!(g.scc(), vec![vec![1, 0]]);
}
