//! Force-directed graph layout over exact integer coordinates.
//!
//! The crate computes 2D positions for the nodes of a graph with the
//! Fruchterman-Reingold simulation: repeated repulsion, attraction and cooling
//! steps over a validated snapshot of graph topology. All coordinates are
//! plain integers, so every run is exactly reproducible from its seed and the
//! whole simulation is specified and proved step by step.
use vstd::prelude::*;

pub mod error;
pub mod fruchterman_reingold;
pub mod graph;
pub mod layout;
pub mod math;
pub mod render;
pub mod rng;
pub mod scatter;

verus! {

use crate::error::LayoutError;
use crate::graph::Graph;
use crate::scatter::ScatterLayout;
use crate::scatter::ScatterLayoutSequence;

/// The algorithm that defines and computes the layout.
///
/// Each engine names the inputs it accepts and what its two operations
/// promise; `compute` returns only the final step of a run, `animate` every
/// intermediate step.
pub trait Engine: Sized {
    /// The inputs this engine accepts.
    spec fn accepts(&self, graph: &Graph) -> bool;

    /// What `compute` promises about its result.
    spec fn computed(&self, graph: Graph, r: Result<ScatterLayout, LayoutError>) -> bool;

    /// What `animate` promises about its result.
    spec fn animated(&self, graph: Graph, r: Result<ScatterLayoutSequence, LayoutError>) -> bool;

    /// Lay the graph out and return the final step only.
    fn compute(self, graph: Graph) -> (r: Result<ScatterLayout, LayoutError>)
        requires
            self.accepts(&graph),
        ensures
            self.computed(graph, r),
    ;

    /// Lay the graph out and return every step, the random initial placement
    /// first and the settled result last.
    fn animate(self, graph: Graph) -> (r: Result<ScatterLayoutSequence, LayoutError>)
        requires
            self.accepts(&graph),
        ensures
            self.animated(graph, r),
    ;
}

} // verus!
