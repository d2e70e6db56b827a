use crate::model::topology::{Links, Topology};
use std::ops::Index;
use std::slice::Iter;
use std::vec::IntoIter;
use vstd::prelude::*;
use vstd::std_specs::iter::IteratorSpec;

mod builder;
mod scc;
mod toposort;

pub use builder::{among, handled, IndexGraphBuilder};

verus! {

/// The bookkeeping of one vertex: its two edge lists and their lengths.
#[derive(Debug, Clone)]
pub struct Vertex {
    in_degree: usize,
    out_degree: usize,
    pub in_edges: Vec<usize>,
    pub out_edges: Vec<usize>,
}

/// A directed graph over the vertices `0..n`, stored as one `Vertex` per
/// index. Duplicate edges and self-loops are allowed.
#[derive(Debug, Clone)]
pub struct IndexGraph {
    vertices: Vec<Vertex>,
}

impl View for Vertex {
    type V = Links;

    /// The two edge lists.
    closed spec fn view(&self) -> Links {
        Links { in_edges: self.in_edges@, out_edges: self.out_edges@ }
    }
}

impl Vertex {
    /// The two counters equal the lengths of the two lists.
    pub closed spec fn degrees_match(&self) -> bool {
        &&& self.in_degree == self.in_edges@.len()
        &&& self.out_degree == self.out_edges@.len()
    }

    /// The sources of the edges that end at this vertex, in insertion
    /// order.
    pub fn in_edges(&self) -> (r: &Vec<usize>)
        ensures
            r@ == self@.in_edges,
    {
        &self.in_edges
    }

    /// The targets of the edges that start at this vertex, in insertion
    /// order.
    pub fn out_edges(&self) -> (r: &Vec<usize>)
        ensures
            r@ == self@.out_edges,
    {
        &self.out_edges
    }
}

impl Default for Vertex {
    /// A vertex without edges.
    fn default() -> (v: Self)
        ensures
            v@ == (Links { in_edges: Seq::empty(), out_edges: Seq::empty() }),
            v.degrees_match(),
    {
        Vertex { in_degree: 0, out_degree: 0, in_edges: Vec::new(), out_edges: Vec::new() }
    }
}

impl View for IndexGraph {
    type V = Topology;

    /// The edge lists of every vertex, in index order.
    closed spec fn view(&self) -> Topology {
        Topology { vertices: Seq::new(self.vertices@.len(), |i: int| self.vertices@[i]@) }
    }
}

impl IndexGraph {
    /// The edge lists describe one set of edges between existing vertices,
    /// and every vertex counts its edges correctly.
    pub closed spec fn wf(&self) -> bool {
        &&& self@.wf()
        &&& forall|i: int|
            0 <= i < self.vertices@.len() ==> (#[trigger] self.vertices@[i]).degrees_match()
    }

    /// The counter of incoming edges of every vertex, as it stands.
    spec fn in_counts(&self) -> Seq<int> {
        Seq::new(self.vertices@.len(), |i: int| self.vertices@[i].in_degree as int)
    }

    /// The counter of outgoing edges of every vertex, as it stands. The
    /// component search keeps its visit marks in it.
    spec fn marks(&self) -> Seq<int> {
        Seq::new(self.vertices@.len(), |i: int| self.vertices@[i].out_degree as int)
    }

    /// Every visit mark is 0.
    spec fn unmarked(&self) -> bool {
        forall|i: int| 0 <= i < self.marks().len() ==> #[trigger] self.marks()[i] == 0
    }

    /// The vertices as they are stored, in index order.
    pub closed spec fn vertices(&self) -> Seq<Vertex> {
        self.vertices@
    }

    /// A well-formed graph has a well-formed model.
    pub proof fn lemma_wf_model(&self)
        requires
            self.wf(),
        ensures
            self@.wf(),
    {
    }

    /// The stored vertices are the ones that the view describes.
    pub proof fn lemma_vertices_view(&self)
        ensures
            self.vertices().len() == self@.len(),
            forall|i: int| 0 <= i < self@.len()
                ==> (#[trigger] self.vertices()[i])@ == self@.vertices[i],
    {
    }

    /// The graph without vertices.
    pub fn new() -> (g: Self)
        ensures
            g.wf(),
            g@ == Topology::isolated(0),
    {
        let g = Self { vertices: Vec::new() };
        proof {
            assert(g@.vertices =~= Topology::isolated(0).vertices);
            Topology::lemma_isolated_wf(0);
        }
        g
    }

    /// The graph of `len` vertices without edges.
    pub fn with_vertices(len: usize) -> (g: Self)
        ensures
            g.wf(),
            g@ == Topology::isolated(len as nat),
    {
        let mut vertices: Vec<Vertex> = Vec::with_capacity(len);
        let mut i: usize = 0;
        while i < len
            invariant
                i <= len,
                vertices@.len() == i,
                forall|k: int|
                    0 <= k < i ==> (#[trigger] vertices@[k]).degrees_match() && vertices@[k]@ == (
                    Links { in_edges: Seq::empty(), out_edges: Seq::empty() }),
            decreases len - i,
        {
            vertices.push(Vertex::default());
            i += 1;
        }
        let g = IndexGraph { vertices };
        proof {
            assert(g@.vertices =~= Topology::isolated(len as nat).vertices);
            Topology::lemma_isolated_wf(len as nat);
        }
        g
    }

    /// The vertices in index order.
    pub fn iter(&self) -> (it: Iter<'_, Vertex>)
        ensures
            it.remaining() == self.vertices().as_ref(),
    {
        self.vertices.iter()
    }

    /// Adds the edge `from -> to`: `to` is appended to the out-list of
    /// `from`, and `from` to the in-list of `to`.
    pub fn add_edge(&mut self, from: usize, to: usize)
        requires
            old(self).wf(),
            from < old(self)@.len(),
            to < old(self)@.len(),
        ensures
            final(self).wf(),
            final(self)@ == old(self)@.add_edge(from as int, to as int),
    {
        self.vertices[from].out_edges.push(to);
        self.vertices[to].in_edges.push(from);
        proof {
            broadcast use vstd::std_specs::vec::axiom_spec_len;

            assert(self.vertices@[from as int].out_edges.len() <= usize::MAX);
            assert(self.vertices@[to as int].in_edges.len() <= usize::MAX);
        }
        self.vertices[from].out_degree += 1;
        self.vertices[to].in_degree += 1;
        proof {
            old(self)@.lemma_add_edge_lists(from as int, to as int);
            old(self)@.lemma_add_edge_wf(from as int, to as int);
            assert(self@.vertices =~= old(self)@.add_edge(from as int, to as int).vertices);
        }
    }

    /// Reverses every edge, by exchanging the two lists of each vertex.
    pub fn transpose(&mut self)
        requires
            old(self).wf(),
        ensures
            final(self).wf(),
            final(self)@ == old(self)@.transpose(),
    {
        let n = self.vertices.len();
        let mut i: usize = 0;
        while i < n
            invariant
                i <= n,
                n == self.vertices@.len(),
                n == old(self).vertices@.len(),
                forall|k: int|
                    0 <= k < i ==> {
                        &&& (#[trigger] self.vertices@[k]).in_edges@
                            == old(self).vertices@[k].out_edges@
                        &&& self.vertices@[k].out_edges@ == old(self).vertices@[k].in_edges@
                        &&& self.vertices@[k].in_degree == old(self).vertices@[k].out_degree
                        &&& self.vertices@[k].out_degree == old(self).vertices@[k].in_degree
                    },
                forall|k: int| i <= k < n
                    ==> (#[trigger] self.vertices@[k]) == old(self).vertices@[k],
            decreases n - i,
        {
            let vertex = &mut self.vertices[i];
            std::mem::swap(&mut vertex.in_degree, &mut vertex.out_degree);
            std::mem::swap(&mut vertex.in_edges, &mut vertex.out_edges);
            i += 1;
        }
        proof {
            old(self)@.lemma_transpose_wf();
            assert(self@.vertices =~= old(self)@.transpose().vertices);
        }
    }
}

impl vstd::std_specs::core::IndexSpecImpl<usize> for IndexGraph {
    /// Indexing asks for the number of a vertex.
    open spec fn index_req(&self, index: &usize) -> bool {
        *index < self@.len()
    }
}

impl Index<usize> for IndexGraph {
    type Output = Vertex;

    /// The vertex at `index`.
    fn index(&self, index: usize) -> (v: &Vertex)
        ensures
            v@ == self@.vertices[index as int],
            *v == self.vertices()[index as int],
    {
        &self.vertices[index]
    }
}

impl<'g> IntoIterator for &'g IndexGraph {
    type Item = &'g Vertex;

    type IntoIter = Iter<'g, Vertex>;

    /// The vertices in index order.
    fn into_iter(self) -> (it: Iter<'g, Vertex>)
        ensures
            it.remaining() == self.vertices().as_ref(),
    {
        self.vertices.iter()
    }
}

impl IntoIterator for IndexGraph {
    type Item = Vertex;

    type IntoIter = IntoIter<Vertex>;

    /// The vertices in index order, handed over.
    fn into_iter(self) -> (it: IntoIter<Vertex>)
        ensures
            it.remaining() == self.vertices(),
    {
        self.vertices.into_iter()
    }
}

} // verus!
