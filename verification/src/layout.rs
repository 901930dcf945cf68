//! Geometry carried by layouts: points, raw input coordinates and
//! axis-aligned bounding boxes.
use vstd::prelude::*;

use crate::error::LayoutError;

verus! {

/// Largest coordinate magnitude a bounding box may span. An extent beyond
/// this range cannot be represented and is treated as infinite.
pub const COORD_LIMIT: i64 = 0x2000_0000_0000_0000;

/// A node position in 2D space: `(x, y)`.
#[derive(Clone, Copy, Debug, PartialEq, Eq, Structural)]
pub struct Point(pub i64, pub i64);

impl View for Point {
    type V = (int, int);

    open spec fn view(&self) -> (int, int) {
        (self.0 as int, self.1 as int)
    }
}

impl Point {
    /// The horizontal coordinate.
    pub fn x(&self) -> (r: i64)
        ensures
            r == self.0,
    {
        self.0
    }

    /// The vertical coordinate.
    pub fn y(&self) -> (r: i64)
        ensures
            r == self.1,
    {
        self.1
    }
}

/// A coordinate as delivered by an outside numeric source: either a plain
/// finite value, or one of the two non-finite classes that layout
/// construction must reject.
#[derive(Clone, Copy, Debug, PartialEq, Eq, Structural)]
pub enum Coord {
    /// An ordinary finite value.
    Finite(i64),
    /// A value that is not a number; the sign does not matter.
    NotANumber,
    /// An infinite value; the sign does not matter for validation.
    Infinite,
}

impl Coord {
    /// The finite value carried, when there is one.
    pub open spec fn value(self) -> int {
        self->Finite_0 as int
    }
}

/// Both corners lie in the representable range and are ordered, so widths,
/// heights and areas are well defined.
pub open spec fn wf_box(lo: (int, int), hi: (int, int)) -> bool {
    &&& -COORD_LIMIT <= lo.0 <= hi.0 <= COORD_LIMIT
    &&& -COORD_LIMIT <= lo.1 <= hi.1 <= COORD_LIMIT
}

/// The minimal axis-aligned rectangle containing a set of points, kept as its
/// lower-left and upper-right corner.
#[derive(Clone, Copy, Debug, PartialEq, Eq, Structural)]
pub struct BoundingBox {
    lower: Point,
    upper: Point,
}

impl BoundingBox {
    /// The lower-left corner.
    pub closed spec fn lo(&self) -> (int, int) {
        self.lower@
    }

    /// The upper-right corner.
    pub closed spec fn hi(&self) -> (int, int) {
        self.upper@
    }

    #[verifier::type_invariant]
    pub(crate) open spec fn inv(self) -> bool {
        wf_box(self.lo(), self.hi())
    }

    /// Build a box from its two corners. The corners must be ordered
    /// coordinate-wise and lie in the representable range.
    pub fn new(lower_left: Point, upper_right: Point) -> (r: Result<BoundingBox, LayoutError>)
        ensures
            match r {
                Ok(b) => b.lo() == lower_left@ && b.hi() == upper_right@ && wf_box(
                    lower_left@,
                    upper_right@,
                ),
                Err(e) => {
                    &&& !wf_box(lower_left@, upper_right@)
                    &&& if lower_left.0 > upper_right.0 || lower_left.1 > upper_right.1 {
                        e == LayoutError::DegenerateBoundingBox
                    } else {
                        e == LayoutError::InfiniteBoundingBox
                    }
                },
            },
    {
        if lower_left.0 > upper_right.0 || lower_left.1 > upper_right.1 {
            return Err(LayoutError::DegenerateBoundingBox);
        }
        if lower_left.0 < -COORD_LIMIT || upper_right.0 > COORD_LIMIT || lower_left.1 < -COORD_LIMIT
            || upper_right.1 > COORD_LIMIT {
            return Err(LayoutError::InfiniteBoundingBox);
        }
        Ok(BoundingBox { lower: lower_left, upper: upper_right })
    }

    /// Corner-wise constructor for boxes the crate itself derives from
    /// validated positions.
    pub(crate) fn from_corners(lower: Point, upper: Point) -> (r: BoundingBox)
        requires
            wf_box(lower@, upper@),
        ensures
            r.lo() == lower@,
            r.hi() == upper@,
    {
        BoundingBox { lower, upper }
    }

    /// The lower left corner.
    pub fn lower_left(&self) -> (r: Point)
        ensures
            r@ == self.lo(),
    {
        self.lower
    }

    /// The upper right corner.
    pub fn upper_right(&self) -> (r: Point)
        ensures
            r@ == self.hi(),
    {
        self.upper
    }

    /// Horizontal extent; never negative.
    pub fn width(&self) -> (r: i64)
        ensures
            r == self.hi().0 - self.lo().0,
            r >= 0,
    {
        proof {
            use_type_invariant(self);
        }
        self.upper.0 - self.lower.0
    }

    /// Vertical extent; never negative.
    pub fn height(&self) -> (r: i64)
        ensures
            r == self.hi().1 - self.lo().1,
            r >= 0,
    {
        proof {
            use_type_invariant(self);
        }
        self.upper.1 - self.lower.1
    }

    /// The area spanned: width times height.
    pub fn area(&self) -> (r: i128)
        ensures
            r == (self.hi().0 - self.lo().0) * (self.hi().1 - self.lo().1),
            r >= 0,
    {
        proof {
            use_type_invariant(self);
        }
        let w: i128 = (self.upper.0 - self.lower.0) as i128;
        let h: i128 = (self.upper.1 - self.lower.1) as i128;
        proof {
            assert(0 <= w * h <= (0x4000_0000_0000_0000 as int) * (0x4000_0000_0000_0000 as int))
                by (nonlinear_arith)
                requires
                    0 <= w <= 0x4000_0000_0000_0000i128,
                    0 <= h <= 0x4000_0000_0000_0000i128,
            ;
        }
        w * h
    }
}

} // verus!
