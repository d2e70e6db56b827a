use index_graph::graph::{IndexGraph, IndexGraphBuilder, Vertex};

fn out_lists(g: &IndexGraph) -> Vec<Vec<usize>> {
    g.iter().map(|v| v.out_edges.clone()).collect()
}

fn in_lists(g: &IndexGraph) -> Vec<Vec<usize>> {
    g.iter().map(|v| v.in_edges.clone()).collect()
}

#[test]
fn new_graph_has_no_vertices() {
    let g = IndexGraph::new();
    assert_eq!(g.iter().count(), 0);
}

#[test]
fn with_vertices_makes_isolated_vertices() {
    let g = IndexGraph::with_vertices(4);
    assert_eq!(g.iter().count(), 4);
    for v in g.iter() {
        assert!(v.in_edges.is_empty());
        assert!(v.out_edges.is_empty());
    }
}

#[test]
fn with_zero_vertices_is_empty() {
    let g = IndexGraph::with_vertices(0);
    assert_eq!(g.iter().count(), 0);
}

#[test]
fn default_vertex_has_no_edges() {
    let v = Vertex::default();
    assert!(v.in_edges.is_empty());
    assert!(v.out_edges.is_empty());
}

#[test]
fn add_edge_appends_to_both_lists() {
    let mut g = IndexGraph::with_vertices(3);
    g.add_edge(0, 2);
    g.add_edge(1, 2);
    g.add_edge(0, 1);
    assert_eq!(out_lists(&g), vec![vec![2, 1], vec![2], vec![]]);
    assert_eq!(in_lists(&g), vec![vec![], vec![0], vec![0, 1]]);
}

#[test]
fn add_edge_keeps_duplicates() {
    let mut g = IndexGraph::with_vertices(2);
    g.add_edge(0, 1);
    g.add_edge(0, 1);
    assert_eq!(g[0].out_edges, vec![1, 1]);
    assert_eq!(g[1].in_edges, vec![0, 0]);
}

#[test]
fn add_edge_accepts_self_loop() {
    let mut g = IndexGraph::with_vertices(1);
    g.add_edge(0, 0);
    assert_eq!(g[0].out_edges, vec![0]);
    assert_eq!(g[0].in_edges, vec![0]);
}

#[test]
fn index_reads_one_vertex() {
    let mut g = IndexGraph::with_vertices(3);
    g.add_edge(2, 1);
    assert_eq!(g[2].out_edges, vec![1]);
    assert!(g[2].in_edges.is_empty());
    assert_eq!(g[1].in_edges, vec![2]);
}

#[test]
fn transpose_swaps_the_lists() {
    let mut g = IndexGraph::with_vertices(3);
    g.add_edge(0, 1);
    g.add_edge(0, 2);
    g.add_edge(1, 2);
    g.transpose();
    assert_eq!(out_lists(&g), vec![vec![], vec![0], vec![0, 1]]);
    assert_eq!(in_lists(&g), vec![vec![1, 2], vec![2], vec![]]);
}

#[test]
fn transpose_twice_restores_the_graph() {
    let mut g = IndexGraph::with_vertices(4);
    g.add_edge(0, 1);
    g.add_edge(1, 2);
    g.add_edge(2, 0);
    g.add_edge(3, 3);
    g.add_edge(0, 1);
    let outs = out_lists(&g);
    let ins = in_lists(&g);
    g.transpose();
    g.transpose();
    assert_eq!(out_lists(&g), outs);
    assert_eq!(in_lists(&g), ins);
}

#[test]
fn transposed_graph_sorts_in_reverse() {
    let mut g = IndexGraph::with_vertices(3);
    g.add_edge(0, 1);
    g.add_edge(1, 2);
    g.transpose();
    assert_eq!(g.toposort(), Some(vec![2, 1, 0]));
}

#[test]
fn edge_added_after_transpose_is_counted() {
    let mut g = IndexGraph::with_vertices(3);
    g.add_edge(0, 1);
    g.transpose();
    g.add_edge(0, 2);
    assert_eq!(g.toposort(), Some(vec![1, 0, 2]));
}

#[test]
fn borrowed_iteration_is_in_index_order() {
    let mut g = IndexGraph::with_vertices(3);
    g.add_edge(0, 1);
    g.add_edge(1, 2);
    let mut seen = Vec::new();
    for v in &g {
        seen.push(v.out_edges.clone());
    }
    assert_eq!(seen, vec![vec![1], vec![2], vec![]]);
}

#[test]
fn owned_iteration_yields_the_vertices() {
    let mut g = IndexGraph::with_vertices(2);
    g.add_edge(1, 0);
    let vertices: Vec<Vertex> = g.into_iter().collect();
    assert_eq!(vertices.len(), 2);
    assert_eq!(vertices[0].in_edges, vec![1]);
    assert_eq!(vertices[1].out_edges, vec![0]);
}

#[test]
fn clone_is_independent() {
    let mut g = IndexGraph::with_vertices(2);
    g.add_edge(0, 1);
    let copy = g.clone();
    g.add_edge(1, 0);
    assert_eq!(copy.toposort(), Some(vec![0, 1]));
    assert_eq!(g.toposort(), None);
}

#[test]
fn from_graph_calls_back_once_per_element_in_order() {
    let elements = ["a", "b", "c"];
    let mut calls = Vec::new();
    let g = IndexGraph::from_graph(&elements, |builder, element| {
        calls.push((builder.index(), *element));
    });
    assert_eq!(calls, vec![(0, "a"), (1, "b"), (2, "c")]);
    assert_eq!(g.iter().count(), 3);
}

#[test]
fn from_graph_chain_sorts_in_element_order() {
    let elements = ['A', 'B', 'C'];
    let g = IndexGraph::from_graph(&elements, |mut builder, element| match element {
        'A' => builder.add_out_edge(1),
        'B' => builder.add_out_edge(2),
        _ => {}
    });
    assert_eq!(out_lists(&g), vec![vec![1], vec![2], vec![]]);
    assert_eq!(g.try_toposort().ok(), Some(vec![0, 1, 2]));
}

#[test]
fn from_graph_of_nothing_is_empty() {
    let elements: [u8; 0] = [];
    let g = IndexGraph::from_graph(&elements, |_builder, _element| {});
    assert_eq!(g.iter().count(), 0);
}

#[test]
fn builder_adds_incoming_edges() {
    let elements = [0u8, 1, 2];
    let g = IndexGraph::from_graph(&elements, |mut builder, _| {
        if builder.index() > 0 {
            let source = builder.index() - 1;
            builder.add_in_edge(source);
        }
    });
    assert_eq!(out_lists(&g), vec![vec![1], vec![2], vec![]]);
    assert_eq!(in_lists(&g), vec![vec![], vec![0], vec![1]]);
}

#[test]
fn builder_reaches_the_graph() {
    let elements = [(); 3];
    let g = IndexGraph::from_graph(&elements, |mut builder: IndexGraphBuilder<'_>, _| {
        let n = builder.as_graph().iter().count();
        assert_eq!(n, 3);
        if builder.index() == 0 {
            builder.as_mut_graph().add_edge(2, 1);
        }
    });
    assert_eq!(out_lists(&g), vec![vec![], vec![], vec![1]]);
    assert_eq!(in_lists(&g), vec![vec![], vec![2], vec![]]);
}

#[test]
fn adjacency_list_gives_the_out_lists() {
    let lists = vec![vec![1, 2], vec![2], vec![], vec![0, 0]];
    let g = IndexGraph::from_adjacency_list(&lists);
    assert_eq!(out_lists(&g), lists);
    assert_eq!(in_lists(&g), vec![vec![3, 3], vec![0], vec![0, 1], vec![]]);
}

#[test]
fn adjacency_list_of_nothing_is_empty() {
    let lists: Vec<Vec<usize>> = Vec::new();
    let g = IndexGraph::from_adjacency_list(&lists);
    assert_eq!(g.iter().count(), 0);
}

#[test]
fn accessors_read_the_edge_lists() {
    let mut g = IndexGraph::with_vertices(3);
    g.add_edge(0, 2);
    g.add_edge(1, 2);
    g.add_edge(0, 1);
    assert_eq!(g[0].out_edges(), &vec![2, 1]);
    assert!(g[0].in_edges().is_empty());
    assert_eq!(g[2].in_edges(), &vec![0, 1]);
    assert!(g[2].out_edges().is_empty());
    assert_eq!(g[1].in_edges(), &g[1].in_edges);
    assert_eq!(g[1].out_edges(), &g[1].out_edges);
}

#[test]
fn callback_that_adds_nothing_leaves_no_edges() {
    let elements = [7u8, 8, 9];
    let g = IndexGraph::from_graph(&elements, |_builder, _element| {});
    assert_eq!(out_lists(&g), vec![Vec::<usize>::new(); 3]);
    assert_eq!(in_lists(&g), vec![Vec::<usize>::new(); 3]);
}

#[test]
fn callback_sees_the_edges_of_earlier_calls() {
    let elements = ['A', 'B', 'C'];
    let mut seen = Vec::new();
    let g = IndexGraph::from_graph(&elements, |mut builder, _| {
        let edges: usize = builder.as_graph().iter().map(|v| v.out_edges.len()).sum();
        seen.push((builder.index(), builder.as_graph().iter().count(), edges));
        if builder.index() < 2 {
            let target = builder.index() + 1;
            builder.add_out_edge(target);
        }
    });
    assert_eq!(seen, vec![(0, 3, 0), (1, 3, 1), (2, 3, 2)]);
    assert_eq!(out_lists(&g), vec![vec![1], vec![2], vec![]]);
    assert_eq!(in_lists(&g), vec![vec![], vec![0], vec![1]]);
}
