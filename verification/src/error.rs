//! Validation failures reported by constructors in this crate.
use vstd::prelude::*;

verus! {

/// Why a graph, layout, sequence or bounding box could not be built.
///
/// Every constructor reports failure through this type instead of panicking.
#[derive(Clone, Copy, Debug, PartialEq, Eq, Structural)]
pub enum LayoutError {
    /// The graph has no nodes; layouts are defined for at least one node.
    EmptyGraph,
    /// An edge endpoint is not a valid node index.
    InvalidEdge,
    /// The number of position rows differs from the graph's node count.
    ShapeMismatch,
    /// A coordinate was marked not-a-number.
    NonFiniteCoordinate,
    /// A coordinate was infinite or beyond the representable extent, so the
    /// bounding box would have an infinite extent.
    InfiniteBoundingBox,
    /// A bounding box with zero extent (or misordered corners) was used where
    /// a proper box is needed.
    DegenerateBoundingBox,
    /// A layout sequence needs at least one frame.
    EmptySequence,
}

} // verus!
