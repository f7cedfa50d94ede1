//! The data of the exact integer-programming formulation: one binary
//! variable per vertex for its side, one per edge for whether it is cut. The
//! solver itself runs outside the library; this holds the edges in the order
//! of the edge variables and reads the cut off a solution.
use vstd::prelude::*;
use crate::graph::{all_edges_of, Edge, Graph};

verus! {

/// The edges of `edges` whose flag in `chosen` is set, in order.
pub open spec fn chosen_edges(edges: Seq<Edge>, chosen: Seq<bool>) -> Seq<Edge>
    decreases edges.len(),
{
    if edges.len() == 0 {
        Seq::empty()
    } else {
        let rest = chosen_edges(edges.drop_last(), chosen);
        if chosen[edges.len() - 1] { rest.push(edges.last()) } else { rest }
    }
}

/// The integer program for the maximum cut of a graph.
pub struct MaxCutIlp<'a> {
    graph: &'a Graph,
    edges: Vec<Edge>,
}

impl<'a> MaxCutIlp<'a> {
    /// The graph of the program.
    pub closed spec fn spec_graph(&self) -> Graph {
        *self.graph
    }

    /// The edges, in the order of the edge variables.
    pub closed spec fn spec_edges(&self) -> Seq<Edge> {
        self.edges@
    }

    /// The program for `graph`: its edges in the order of
    /// [`Graph::all_edges`].
    pub fn new(graph: &Graph) -> (r: MaxCutIlp)
        requires
            graph.wf(),
        ensures
            r.spec_graph() == *graph,
            r.spec_edges() == all_edges_of(graph@),
    {
        MaxCutIlp { graph, edges: graph.all_edges() }
    }

    /// The number of vertex variables.
    pub fn vertex_count(&self) -> (r: usize)
        ensures
            r == self.spec_graph()@.len(),
    {
        self.graph.size()
    }

    /// The edges, in the order of the edge variables.
    pub fn edges(&self) -> (r: &Vec<Edge>)
        ensures
            r@ == self.spec_edges(),
    {
        &self.edges
    }

    /// The cut of a solution: the edges whose variable is set in `chosen`.
    pub fn cut_from_solution(&self, chosen: &Vec<bool>) -> (r: Vec<Edge>)
        requires
            chosen@.len() == self.spec_edges().len(),
        ensures
            r@ == chosen_edges(self.spec_edges(), chosen@),
    {
        let mut cut: Vec<Edge> = Vec::new();
        let mut k: usize = 0;
        while k < self.edges.len()
            invariant
                k <= self.edges@.len(),
                chosen@.len() == self.edges@.len(),
                cut@ == chosen_edges(self.edges@.subrange(0, k as int), chosen@),
            decreases self.edges@.len() - k,
        {
            assert(self.edges@.subrange(0, k as int + 1).drop_last() =~= self.edges@.subrange(0, k as int));
            if chosen[k] {
                cut.push(self.edges[k]);
            }
            k = k + 1;
        }
        assert(self.edges@.subrange(0, k as int) =~= self.edges@);
        cut
    }
}

} // verus!
