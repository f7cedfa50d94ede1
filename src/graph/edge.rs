//! An edge given by its two end vertices.
use vstd::prelude::*;

verus! {

/// An edge from `node_l` to `node_r`.
#[derive(Debug)]
pub struct Edge {
    pub node_l: usize,
    pub node_r: usize,
}

impl PartialEq for Edge {
    fn eq(&self, other: &Self) -> (r: bool)
        ensures
            r == (self.node_l == other.node_l && self.node_r == other.node_r),
    {
        self.node_l == other.node_l && self.node_r == other.node_r
    }
}

impl vstd::std_specs::cmp::PartialEqSpecImpl for Edge {
    open spec fn obeys_eq_spec() -> bool {
        true
    }

    open spec fn eq_spec(&self, other: &Edge) -> bool {
        self.node_l == other.node_l && self.node_r == other.node_r
    }
}

impl Edge {
    /// The edge from `x` to `y`.
    pub fn new(x: usize, y: usize) -> (e: Edge)
        ensures
            e.node_l == x,
            e.node_r == y,
    {
        Edge { node_l: x, node_r: y }
    }
}

} // verus!
