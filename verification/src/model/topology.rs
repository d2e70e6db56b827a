use vstd::prelude::*;

verus! {

/// The two edge lists of one vertex, in insertion order.
pub struct Links {
    /// Sources of the edges that end at this vertex.
    pub in_edges: Seq<usize>,
    /// Targets of the edges that start at this vertex.
    pub out_edges: Seq<usize>,
}

/// The mathematical model of a graph: one pair of edge lists per vertex,
/// vertices identified with the positions `0..len()`.
pub struct Topology {
    pub vertices: Seq<Links>,
}

/// `v` stands in one of the lists.
pub open spec fn listed(comps: Seq<Seq<usize>>, v: usize) -> bool {
    exists|i: int| 0 <= i < comps.len() && (#[trigger] comps[i]).contains(v)
}

/// Number of positions of `s` that hold the value `x`.
pub open spec fn occurrences(s: Seq<usize>, x: int) -> nat
    decreases s.len(),
{
    if s.len() == 0 {
        0
    } else {
        occurrences(s.drop_last(), x) + if s.last() as int == x {
            1nat
        } else {
            0nat
        }
    }
}

impl Topology {
    /// Number of vertices.
    pub open spec fn len(self) -> nat {
        self.vertices.len()
    }

    /// `v` is the number of a vertex.
    pub open spec fn has_vertex(self, v: int) -> bool {
        0 <= v < self.len()
    }

    /// Targets of the edges leaving `u`.
    pub open spec fn succ(self, u: int) -> Seq<usize> {
        self.vertices[u].out_edges
    }

    /// Sources of the edges entering `v`.
    pub open spec fn pred(self, v: int) -> Seq<usize> {
        self.vertices[v].in_edges
    }

    /// Every listed endpoint is a vertex of the graph.
    pub open spec fn edges_in_range(self) -> bool {
        &&& forall|u: int, j: int|
            self.has_vertex(u) && 0 <= j < self.succ(u).len() ==> self.has_vertex(
                #[trigger] self.succ(u)[j] as int,
            )
        &&& forall|v: int, j: int|
            self.has_vertex(v) && 0 <= j < self.pred(v).len() ==> self.has_vertex(
                #[trigger] self.pred(v)[j] as int,
            )
    }

    /// The out-lists and the in-lists describe the same multiset of edges.
    pub open spec fn balanced(self) -> bool {
        forall|u: int, v: int|
            #![trigger occurrences(self.succ(u), v)]
            #![trigger occurrences(self.pred(v), u)]
            self.has_vertex(u) && self.has_vertex(v) ==> occurrences(self.succ(u), v)
                == occurrences(self.pred(v), u)
    }

    /// The vertices can be numbered by `usize`, the edges run between
    /// them, and the two lists of each vertex agree with those of the others.
    pub open spec fn wf(self) -> bool {
        self.len() <= usize::MAX && self.edges_in_range() && self.balanced()
    }

    /// There is at least one edge from `u` to `v`.
    pub open spec fn has_edge(self, u: int, v: int) -> bool {
        &&& self.has_vertex(u)
        &&& self.has_vertex(v)
        &&& exists|j: int| 0 <= j < self.succ(u).len() && #[trigger] self.succ(u)[j] as int == v
    }

    /// `p` is a non-empty walk along edges.
    pub open spec fn is_path(self, p: Seq<int>) -> bool {
        &&& p.len() > 0
        &&& forall|i: int| 0 <= i < p.len() ==> self.has_vertex(#[trigger] p[i])
        &&& forall|i: int| 0 <= i < p.len() - 1 ==> self.has_edge(#[trigger] p[i], p[i + 1])
    }

    /// `p` is a walk from `u` to `v`.
    pub open spec fn connects(self, p: Seq<int>, u: int, v: int) -> bool {
        self.is_path(p) && p.first() == u && p.last() == v
    }

    /// `v` can be reached from `u` along zero or more edges.
    pub open spec fn reaches(self, u: int, v: int) -> bool {
        exists|p: Seq<int>| #[trigger] self.connects(p, u, v)
    }

    /// `v` can be reached from `u` along one or more edges.
    pub open spec fn reaches_by_edge(self, u: int, v: int) -> bool {
        exists|p: Seq<int>| #[trigger] self.connects(p, u, v) && p.len() >= 2
    }

    /// `v` has a way back to itself along at least one edge.
    pub open spec fn on_cycle(self, v: int) -> bool {
        self.reaches_by_edge(v, v)
    }

    /// No vertex lies on a cycle.
    pub open spec fn acyclic(self) -> bool {
        forall|v: int| !self.on_cycle(v)
    }

    /// Each of `u` and `v` can be reached from the other.
    pub open spec fn strongly_connected(self, u: int, v: int) -> bool {
        self.reaches(u, v) && self.reaches(v, u)
    }

    /// `order` lists every vertex exactly once, and every edge leads from an
    /// earlier position to a later one.
    pub open spec fn is_topological_order(self, order: Seq<usize>) -> bool {
        &&& order.len() == self.len()
        &&& order.no_duplicates()
        &&& forall|i: int| 0 <= i < order.len() ==> self.has_vertex(#[trigger] order[i] as int)
        &&& forall|i: int, j: int|
            0 <= i < order.len() && 0 <= j < order.len() && #[trigger] self.has_edge(
                order[i] as int,
                order[j] as int,
            ) ==> i < j
    }

    /// The graph of `n` vertices without edges.
    pub open spec fn isolated(n: nat) -> Topology {
        Topology {
            vertices: Seq::new(
                n,
                |i: int| Links { in_edges: Seq::empty(), out_edges: Seq::empty() },
            ),
        }
    }

    /// The graph with one more edge, appended to the out-list of `from` and
    /// to the in-list of `to`.
    pub open spec fn add_edge(self, from: int, to: int) -> Topology {
        let grown = self.vertices.update(
            from,
            Links { out_edges: self.succ(from).push(to as usize), ..self.vertices[from] },
        );
        Topology {
            vertices: grown.update(
                to,
                Links { in_edges: grown[to].in_edges.push(from as usize), ..grown[to] },
            ),
        }
    }

    /// The graph with one more edge from `from` to each of `targets`, added
    /// in the order of `targets`.
    pub open spec fn add_edges(self, from: int, targets: Seq<usize>) -> Topology
        decreases targets.len(),
    {
        if targets.len() == 0 {
            self
        } else {
            self.add_edges(from, targets.drop_last()).add_edge(from, targets.last() as int)
        }
    }

    /// The graph with the edges that the first `k` of the lists name: list
    /// `u` holds the targets of the edges from `u`. The edges of one vertex
    /// are added after those of the vertices before it.
    pub open spec fn adjacency_prefix(lists: Seq<Seq<usize>>, k: nat) -> Topology
        decreases k,
    {
        if k == 0 {
            Topology::isolated(lists.len())
        } else {
            Topology::adjacency_prefix(lists, (k - 1) as nat).add_edges(k - 1, lists[k - 1])
        }
    }

    /// The graph with one vertex for each list, and with the edges that the
    /// lists name.
    pub open spec fn from_adjacency(lists: Seq<Seq<usize>>) -> Topology {
        Topology::adjacency_prefix(lists, lists.len())
    }

    /// The graph with every edge reversed.
    pub open spec fn transpose(self) -> Topology {
        Topology {
            vertices: Seq::new(
                self.len(),
                |i: int| Links { in_edges: self.succ(i), out_edges: self.pred(i) },
            ),
        }
    }

    /// Each list is a whole strongly connected component, written without
    /// repetition, and no list can be reached from a later one.
    pub open spec fn are_components(self, comps: Seq<Seq<usize>>) -> bool {
        &&& forall|i: int, j: int|
            0 <= i < comps.len() && 0 <= j < comps[i].len() ==> self.has_vertex(
                #[trigger] comps[i][j] as int,
            )
        &&& forall|i: int|
            0 <= i < comps.len() ==> (#[trigger] comps[i]).len() > 0 && comps[i].no_duplicates()
        &&& forall|i: int, j: int, v: usize|
            #![trigger comps[i][j], comps[i].contains(v)]
            #![trigger self.strongly_connected(comps[i][j] as int, v as int)]
            0 <= i < comps.len() && 0 <= j < comps[i].len() && v < self.len() ==> (
            comps[i].contains(v) <==> self.strongly_connected(comps[i][j] as int, v as int))
        &&& forall|i: int, k: int, a: int, b: int|
            0 <= i < k < comps.len() && 0 <= a < comps[i].len() && 0 <= b < comps[k].len()
                ==> !self.reaches(#[trigger] comps[k][b] as int, #[trigger] comps[i][a] as int)
    }

    /// The lists are the strongly connected components that hold a cycle:
    /// a vertex is listed exactly when it has a way back to itself.
    pub open spec fn cycle_components(self, comps: Seq<Seq<usize>>) -> bool {
        &&& self.are_components(comps)
        &&& forall|v: usize|
            v < self.len() ==> (self.on_cycle(v as int) <==> #[trigger] listed(comps, v))
    }
}

} // verus!
