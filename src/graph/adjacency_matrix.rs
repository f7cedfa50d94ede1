//! An undirected graph stored as a square matrix of booleans; for small
//! graphs, as a check on the adjacency lists.
use vstd::prelude::*;
use super::edge::Edge;
use crate::quad_matrix_usize::{square, QuadMatrixBool};

verus! {

/// Both entries of the edge `{a, b}` of `m` set to `v`.
pub open spec fn set_pair(m: Seq<Seq<bool>>, a: usize, b: usize, v: bool) -> Seq<Seq<bool>> {
    let m1 = m.update(a as int, m[a as int].update(b as int, v));
    m1.update(b as int, m1[b as int].update(a as int, v))
}

/// The entries of the edges `es` of `m` set to `v`, one edge after another.
pub open spec fn set_pairs(m: Seq<Seq<bool>>, es: Seq<(usize, usize)>, v: bool) -> Seq<Seq<bool>>
    decreases es.len(),
{
    if es.len() == 0 {
        m
    } else {
        set_pair(set_pairs(m, es.drop_last(), v), es.last().0, es.last().1, v)
    }
}

/// The ends of the edges `es`.
pub open spec fn ends(es: Seq<Edge>) -> Seq<(usize, usize)> {
    es.map_values(|e: Edge| (e.node_l, e.node_r))
}

/// Setting a pair of entries keeps a matrix square.
proof fn lemma_set_pair(m: Seq<Seq<bool>>, a: usize, b: usize, v: bool)
    requires
        square(m),
        a < m.len(),
        b < m.len(),
    ensures
        square(set_pair(m, a, b, v)),
        set_pair(m, a, b, v).len() == m.len(),
{
    let m1 = m.update(a as int, m[a as int].update(b as int, v));
    assert(square(m1)) by {
        assert forall|r: int| 0 <= r < m1.len() implies (#[trigger] m1[r]).len() == m1.len() by {
            assert(m[r].len() == m.len());
        }
    }
    let m2 = set_pair(m, a, b, v);
    assert forall|r: int| 0 <= r < m2.len() implies (#[trigger] m2[r]).len() == m2.len() by {
        assert(m1[r].len() == m1.len());
    }
}

/// An undirected graph stored as a square matrix: entry `(a, b)` is set
/// where `{a, b}` is an edge.
#[derive(Debug)]
pub struct AdjacencyMatrix {
    matrix: QuadMatrixBool,
}

impl View for AdjacencyMatrix {
    type V = Seq<Seq<bool>>;

    closed spec fn view(&self) -> Seq<Seq<bool>> {
        self.matrix@
    }
}

impl AdjacencyMatrix {
    /// The matrix is well formed.
    pub closed spec fn wf(&self) -> bool {
        self.matrix.wf()
    }

    /// A well-formed matrix is square.
    pub proof fn lemma_square(&self)
        requires
            self.wf(),
        ensures
            square(self@),
    {
        self.matrix.lemma_square();
    }

    /// A graph on `n` vertices without edges.
    pub fn new_empty(n: usize) -> (g: AdjacencyMatrix)
        ensures
            g.wf(),
            g@.len() == n,
            square(g@),
            forall|i: int, j: int| 0 <= i < n && 0 <= j < n ==> !#[trigger] g@[i][j],
    {
        let g = AdjacencyMatrix { matrix: QuadMatrixBool::new_epmty(n) };
        proof {
            g.matrix.lemma_square();
        }
        g
    }

    /// Sets both entries of `edge` to `v`.
    fn set_edge(&mut self, edge: &Edge, v: bool)
        requires
            old(self).wf(),
            edge.node_l < old(self)@.len(),
            edge.node_r < old(self)@.len(),
        ensures
            final(self).wf(),
            square(final(self)@),
            final(self)@ == set_pair(old(self)@, edge.node_l, edge.node_r, v),
    {
        proof {
            self.matrix.lemma_square();
            lemma_set_pair(self@, edge.node_l, edge.node_r, v);
        }
        let i = (edge.node_l, edge.node_r);
        self.matrix.set(i, v);
        let i = (i.1, i.0);
        self.matrix.set(i, v);
    }

    /// Sets the entries of the edges `edges` to `v`, one after another.
    fn set_edges(&mut self, edges: &[Edge], v: bool)
        requires
            old(self).wf(),
            forall|k: int| 0 <= k < edges@.len() ==> (#[trigger] edges@[k]).node_l < old(self)@.len()
                && edges@[k].node_r < old(self)@.len(),
        ensures
            final(self).wf(),
            square(final(self)@),
            final(self)@ == set_pairs(old(self)@, ends(edges@), v),
    {
        let ghost m0 = self@;
        let mut k: usize = 0;
        while k < edges.len()
            invariant
                k <= edges@.len(),
                self.wf(),
                self@.len() == m0.len(),
                self@ == set_pairs(m0, ends(edges@).subrange(0, k as int), v),
                forall|q: int| 0 <= q < edges@.len() ==> (#[trigger] edges@[q]).node_l < m0.len()
                    && edges@[q].node_r < m0.len(),
            decreases edges@.len() - k,
        {
            self.set_edge(&edges[k], v);
            assert(ends(edges@).subrange(0, k as int + 1).drop_last() =~= ends(edges@).subrange(0, k as int));
            k = k + 1;
        }
        assert(ends(edges@).subrange(0, k as int) =~= ends(edges@));
        proof {
            self.matrix.lemma_square();
        }
    }

    /// Adds the edge `edge`.
    pub fn add_edge(&mut self, edge: &Edge)
        requires
            old(self).wf(),
            edge.node_l < old(self)@.len(),
            edge.node_r < old(self)@.len(),
        ensures
            final(self).wf(),
            square(final(self)@),
            final(self)@ == set_pair(old(self)@, edge.node_l, edge.node_r, true),
    {
        self.set_edge(edge, true);
    }

    /// Adds the edges `edges`, one after another.
    pub fn add_edges(&mut self, edges: &[Edge])
        requires
            old(self).wf(),
            forall|k: int| 0 <= k < edges@.len() ==> (#[trigger] edges@[k]).node_l < old(self)@.len()
                && edges@[k].node_r < old(self)@.len(),
        ensures
            final(self).wf(),
            square(final(self)@),
            final(self)@ == set_pairs(old(self)@, ends(edges@), true),
    {
        self.set_edges(edges, true);
    }

    /// Removes the edge `edge`.
    pub fn delete_edge(&mut self, edge: &Edge)
        requires
            old(self).wf(),
            edge.node_l < old(self)@.len(),
            edge.node_r < old(self)@.len(),
        ensures
            final(self).wf(),
            square(final(self)@),
            final(self)@ == set_pair(old(self)@, edge.node_l, edge.node_r, false),
    {
        self.set_edge(edge, false);
    }

    /// Removes the edges `edges`, one after another.
    pub fn delete_edges(&mut self, edges: &[Edge])
        requires
            old(self).wf(),
            forall|k: int| 0 <= k < edges@.len() ==> (#[trigger] edges@[k]).node_l < old(self)@.len()
                && edges@[k].node_r < old(self)@.len(),
        ensures
            final(self).wf(),
            square(final(self)@),
            final(self)@ == set_pairs(old(self)@, ends(edges@), false),
    {
        self.set_edges(edges, false);
    }

    /// Whether `edge` is an edge; an end that is not a vertex gives `false`.
    pub fn contains_edge(&mut self, edge: Edge) -> (r: bool)
        requires
            old(self).wf(),
        ensures
            *final(self) == *old(self),
            r == (edge.node_l < old(self)@.len() && edge.node_r < old(self)@.len()
                && old(self)@[edge.node_l as int][edge.node_r as int]),
    {
        if edge.node_l >= self.matrix.size() || edge.node_r >= self.matrix.size() {
            return false;
        }
        self.matrix.get((edge.node_l, edge.node_r))
    }
}

} // verus!
