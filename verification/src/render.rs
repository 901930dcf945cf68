//! The rendering boundary.
//!
//! The library computes coordinates and never formats output documents; a
//! drawing layer consumes layouts through this interface.
use vstd::prelude::*;

verus! {

/// Something that can be drawn onto an SVG-like canvas.
///
/// Implemented by rendering layers outside the library, for the values they
/// build from a layout's coordinates.
pub trait RenderSVG: Sized {
    /// The type of the canvas drawn onto.
    type Canvas;

    /// Render self onto canvas returning Ok in case of success or a string
    /// indicating the failure.
    fn render(self, canvas: Self::Canvas) -> Result<Self::Canvas, String>;
}

} // verus!
