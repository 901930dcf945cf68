//! The topology snapshot the engine works on.
//!
//! A `Graph` holds a node count and a list of `(source, target)` index pairs.
//! Each undirected edge is listed once; the engine applies the attractive
//! force of an edge symmetrically to both endpoints, so listing an edge in
//! both directions would double its pull.
use vstd::prelude::*;

use crate::error::LayoutError;

verus! {

use crate::Engine;
use crate::scatter::ScatterLayout;
use crate::scatter::ScatterLayoutSequence;

/// An immutable graph: a node count and a validated edge list.
pub struct Graph {
    node_count: usize,
    edge_list: Vec<(usize, usize)>,
}

impl Graph {
    /// The number of nodes.
    pub closed spec fn nodes_spec(&self) -> nat {
        self.node_count as nat
    }

    /// The edge list as a sequence of index pairs.
    pub closed spec fn edges_spec(&self) -> Seq<(usize, usize)> {
        self.edge_list@
    }

    /// Every edge endpoint is a valid node index.
    pub open spec fn wf(&self) -> bool {
        forall|i: int|
            0 <= i < self.edges_spec().len() ==> (#[trigger] self.edges_spec()[i]).0
                < self.nodes_spec() && self.edges_spec()[i].1 < self.nodes_spec()
    }

    #[verifier::type_invariant]
    pub(crate) open spec fn inv(self) -> bool {
        self.wf()
    }

    /// Build a graph, rejecting any edge whose endpoint is out of range.
    pub fn new(node_count: usize, edges: Vec<(usize, usize)>) -> (r: Result<Graph, LayoutError>)
        ensures
            match r {
                Ok(g) => g.wf() && g.nodes_spec() == node_count && g.edges_spec() == edges@,
                Err(e) => e == LayoutError::InvalidEdge && exists|i: int|
                    0 <= i < edges@.len() && ((#[trigger] edges@[i]).0 >= node_count || edges@[i].1
                        >= node_count),
            },
    {
        let mut i: usize = 0;
        while i < edges.len()
            invariant
                i <= edges@.len(),
                forall|j: int|
                    0 <= j < i ==> (#[trigger] edges@[j]).0 < node_count && edges@[j].1
                        < node_count,
            decreases edges@.len() - i,
        {
            let (s, t) = edges[i];
            if s >= node_count || t >= node_count {
                return Err(LayoutError::InvalidEdge);
            }
            i = i + 1;
        }
        Ok(Graph { node_count, edge_list: edges })
    }

    /// The number of nodes of the graph.
    pub fn nodes(&self) -> (n: usize)
        ensures
            n == self.nodes_spec(),
    {
        self.node_count
    }

    /// The pairs of (source, target) nodes.
    pub fn edges(&self) -> (e: &Vec<(usize, usize)>)
        ensures
            e@ == self.edges_spec(),
    {
        &self.edge_list
    }

    /// Lay this graph out with the given engine, final step only.
    pub fn layout<E: Engine>(self, engine: E) -> (r: Result<ScatterLayout, LayoutError>)
        requires
            engine.accepts(&self),
        ensures
            engine.computed(self, r),
    {
        engine.compute(self)
    }

    /// Lay this graph out with the given engine, every step recorded.
    pub fn animate<E: Engine>(self, engine: E) -> (r: Result<ScatterLayoutSequence, LayoutError>)
        requires
            engine.accepts(&self),
        ensures
            engine.animated(self, r),
    {
        engine.animate(self)
    }
}

} // verus!
