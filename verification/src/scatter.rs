//! Validated snapshots of node positions.
//!
//! A `ScatterLayout` owns one row of positions per node of its graph together
//! with the bounding box derived from them; a `ScatterLayoutSequence` owns the
//! positions of every simulation step and one joint bounding box. Both are
//! built only through validating constructors and support an affine transform
//! into a caller-supplied target box.
use vstd::prelude::*;

use crate::error::LayoutError;
use crate::graph::Graph;
use crate::layout::BoundingBox;
use crate::layout::COORD_LIMIT;
use crate::layout::Coord;
use crate::layout::Point;
use crate::layout::wf_box;
use crate::math::imax;
use crate::math::imin;

verus! {

use vstd::arithmetic::div_mod::lemma_div_is_ordered;
use vstd::arithmetic::div_mod::lemma_div_by_multiple;
use vstd::arithmetic::div_mod::lemma_div_pos_is_pos;

/// The integer coordinates of a point sequence.
pub open spec fn pts_view(s: Seq<Point>) -> Seq<(int, int)> {
    s.map_values(|p: Point| p@)
}

/// A finite coordinate within the representable range.
pub open spec fn coord_in_range(c: Coord) -> bool {
    c is Finite && -COORD_LIMIT <= c.value() <= COORD_LIMIT
}

/// Some raw row carries a not-a-number mark.
pub open spec fn has_nan(pts: Seq<(Coord, Coord)>) -> bool {
    exists|i: int|
        0 <= i < pts.len() && ((#[trigger] pts[i]).0 is NotANumber || pts[i].1 is NotANumber)
}

/// Some coordinate is infinite or beyond the representable extent.
pub open spec fn has_unbounded(pts: Seq<(Coord, Coord)>) -> bool {
    exists|i: int|
        0 <= i < pts.len() && (!coord_in_range((#[trigger] pts[i]).0) || !coord_in_range(
            pts[i].1,
        ))
}

/// The finite values of raw rows.
pub open spec fn unwrap_pts(pts: Seq<(Coord, Coord)>) -> Seq<(int, int)> {
    pts.map_values(|p: (Coord, Coord)| (p.0.value(), p.1.value()))
}

/// The validation decision for one layout: the error reported for this node
/// count and these raw rows, or `None` when construction succeeds.
pub open spec fn layout_check(n: nat, pts: Seq<(Coord, Coord)>) -> Option<LayoutError> {
    if pts.len() != n {
        Some(LayoutError::ShapeMismatch)
    } else if n == 0 {
        Some(LayoutError::EmptyGraph)
    } else if has_nan(pts) {
        Some(LayoutError::NonFiniteCoordinate)
    } else if has_unbounded(pts) {
        Some(LayoutError::InfiniteBoundingBox)
    } else {
        None
    }
}

/// All coordinates lie within `limit` in magnitude.
pub open spec fn bounded_pts(pts: Seq<(int, int)>, limit: int) -> bool {
    forall|i: int|
        0 <= i < pts.len() ==> -limit <= (#[trigger] pts[i]).0 <= limit && -limit <= pts[i].1
            <= limit
}

/// Smallest x coordinate of a nonempty point sequence.
pub open spec fn min_x(pts: Seq<(int, int)>) -> int
    decreases pts.len(),
{
    if pts.len() <= 1 {
        pts[0].0
    } else {
        imin(min_x(pts.drop_last()), pts.last().0)
    }
}

/// Smallest y coordinate of a nonempty point sequence.
pub open spec fn min_y(pts: Seq<(int, int)>) -> int
    decreases pts.len(),
{
    if pts.len() <= 1 {
        pts[0].1
    } else {
        imin(min_y(pts.drop_last()), pts.last().1)
    }
}

/// Largest x coordinate of a nonempty point sequence.
pub open spec fn max_x(pts: Seq<(int, int)>) -> int
    decreases pts.len(),
{
    if pts.len() <= 1 {
        pts[0].0
    } else {
        imax(max_x(pts.drop_last()), pts.last().0)
    }
}

/// Largest y coordinate of a nonempty point sequence.
pub open spec fn max_y(pts: Seq<(int, int)>) -> int
    decreases pts.len(),
{
    if pts.len() <= 1 {
        pts[0].1
    } else {
        imax(max_y(pts.drop_last()), pts.last().1)
    }
}

/// Lower-left corner of the minimal box containing the points.
pub open spec fn box_lo(pts: Seq<(int, int)>) -> (int, int) {
    (min_x(pts), min_y(pts))
}

/// Upper-right corner of the minimal box containing the points.
pub open spec fn box_hi(pts: Seq<(int, int)>) -> (int, int) {
    (max_x(pts), max_y(pts))
}

/// Every point lies between the derived corners.
pub proof fn lemma_box_contains(pts: Seq<(int, int)>, i: int)
    requires
        0 <= i < pts.len(),
    ensures
        min_x(pts) <= pts[i].0 <= max_x(pts),
        min_y(pts) <= pts[i].1 <= max_y(pts),
    decreases pts.len(),
{
    if pts.len() > 1 {
        if i < pts.len() - 1 {
            lemma_box_contains(pts.drop_last(), i);
            assert(pts.drop_last()[i] == pts[i]);
        }
    }
}

/// The derived corners are ordered and bounded when the points are.
pub proof fn lemma_box_bounded(pts: Seq<(int, int)>, limit: int)
    requires
        pts.len() >= 1,
        bounded_pts(pts, limit),
    ensures
        -limit <= min_x(pts) <= max_x(pts) <= limit,
        -limit <= min_y(pts) <= max_y(pts) <= limit,
    decreases pts.len(),
{
    if pts.len() == 1 {
        assert(min_x(pts) == pts[0].0);
    } else {
        assert(bounded_pts(pts.drop_last(), limit)) by {
            assert(forall|i: int|
                0 <= i < pts.len() - 1 ==> #[trigger] pts.drop_last()[i] == pts[i]);
        }
        lemma_box_bounded(pts.drop_last(), limit);
        assert(pts.last() == pts[pts.len() - 1]);
    }
}

/// One coordinate affinely rescaled from a source extent to a target extent.
pub open spec fn transform_coord(v: int, slo: int, ss: int, tlo: int, ts: int) -> int {
    (v - slo) * ts / ss + tlo
}

/// A point sequence affinely rescaled from the source box to the target box,
/// per axis independently.
pub open spec fn transform_pts(
    pts: Seq<(int, int)>,
    slo: (int, int),
    shi: (int, int),
    tlo: (int, int),
    thi: (int, int),
) -> Seq<(int, int)> {
    pts.map_values(
        |p: (int, int)|
            (
                transform_coord(p.0, slo.0, shi.0 - slo.0, tlo.0, thi.0 - tlo.0),
                transform_coord(p.1, slo.1, shi.1 - slo.1, tlo.1, thi.1 - tlo.1),
            ),
    )
}

/// Rescaling points into the very box that contains them is the identity:
/// with source and target equal, `(v - lo) * size / size + lo == v` exactly.
pub proof fn lemma_transform_identity(pts: Seq<(int, int)>, lo: (int, int), hi: (int, int))
    requires
        lo.0 < hi.0,
        lo.1 < hi.1,
        forall|i: int|
            0 <= i < pts.len() ==> lo.0 <= (#[trigger] pts[i]).0 <= hi.0 && lo.1 <= pts[i].1
                <= hi.1,
    ensures
        transform_pts(pts, lo, hi, lo, hi) == pts,
{
    let r = transform_pts(pts, lo, hi, lo, hi);
    assert forall|i: int| 0 <= i < pts.len() implies r[i] == pts[i] by {
        let wx = hi.0 - lo.0;
        let dx = pts[i].0 - lo.0;
        lemma_div_by_multiple(dx, wx);
        assert((dx * wx) / wx == dx);
        let wy = hi.1 - lo.1;
        let dy = pts[i].1 - lo.1;
        lemma_div_by_multiple(dy, wy);
        assert((dy * wy) / wy == dy);
    }
    assert(r =~= pts);
}

/// Transforming a layout's points into their own bounding box leaves every
/// coordinate unchanged, whenever that box has a proper extent.
pub proof fn lemma_roundtrip_identity(pts: Seq<(int, int)>)
    requires
        pts.len() >= 1,
        min_x(pts) < max_x(pts),
        min_y(pts) < max_y(pts),
    ensures
        transform_pts(pts, box_lo(pts), box_hi(pts), box_lo(pts), box_hi(pts)) == pts,
{
    assert forall|i: int|
        0 <= i < pts.len() implies box_lo(pts).0 <= (#[trigger] pts[i]).0 <= box_hi(pts).0
        && box_lo(pts).1 <= pts[i].1 <= box_hi(pts).1 by {
        lemma_box_contains(pts, i);
    }
    lemma_transform_identity(pts, box_lo(pts), box_hi(pts));
}

/// Running extremes of a point list, used to derive bounding boxes.
fn extremes(pts: &Vec<Point>) -> (r: (Point, Point))
    requires
        pts@.len() >= 1,
    ensures
        r.0@ == box_lo(pts_view(pts@)),
        r.1@ == box_hi(pts_view(pts@)),
{
    let mut lox: i64 = pts[0].0;
    let mut loy: i64 = pts[0].1;
    let mut hix: i64 = pts[0].0;
    let mut hiy: i64 = pts[0].1;
    let mut i: usize = 1;
    proof {
        assert(pts_view(pts@).take(1).len() == 1);
        assert(pts_view(pts@).take(1)[0] == pts@[0]@);
    }
    while i < pts.len()
        invariant
            1 <= i <= pts@.len(),
            lox == min_x(pts_view(pts@).take(i as int)),
            loy == min_y(pts_view(pts@).take(i as int)),
            hix == max_x(pts_view(pts@).take(i as int)),
            hiy == max_y(pts_view(pts@).take(i as int)),
        decreases pts@.len() - i,
    {
        let p = pts[i];
        proof {
            let pv = pts_view(pts@);
            assert(pv.take(i + 1).drop_last() =~= pv.take(i as int));
            assert(pv.take(i + 1).last() == pv[i as int]);
            assert(pv[i as int] == pts@[i as int]@);
        }
        if p.0 < lox {
            lox = p.0;
        }
        if p.1 < loy {
            loy = p.1;
        }
        if p.0 > hix {
            hix = p.0;
        }
        if p.1 > hiy {
            hiy = p.1;
        }
        i = i + 1;
    }
    proof {
        assert(pts_view(pts@).take(pts@.len() as int) =~= pts_view(pts@));
    }
    (Point(lox, loy), Point(hix, hiy))
}

/// Whether any coordinate of one row list carries a not-a-number mark.
fn frame_has_nan(pts: &Vec<(Coord, Coord)>) -> (b: bool)
    ensures
        b == has_nan(pts@),
{
    let mut i: usize = 0;
    while i < pts.len()
        invariant
            i <= pts@.len(),
            forall|j: int|
                0 <= j < i ==> !((#[trigger] pts@[j]).0 is NotANumber) && !(pts@[j].1
                    is NotANumber),
        decreases pts@.len() - i,
    {
        let (cx, cy) = pts[i];
        if matches!(cx, Coord::NotANumber) || matches!(cy, Coord::NotANumber) {
            proof {
                assert(pts@[i as int].0 is NotANumber || pts@[i as int].1 is NotANumber);
            }
            return true;
        }
        i = i + 1;
    }
    false
}

/// Extract the finite values of one row list, or report that some coordinate
/// is infinite or beyond the representable extent.
fn convert_frame(pts: &Vec<(Coord, Coord)>) -> (r: Option<Vec<Point>>)
    ensures
        match r {
            Some(v) => !has_unbounded(pts@) && pts_view(v@) == unwrap_pts(pts@) && v@.len()
                == pts@.len() && bounded_pts(pts_view(v@), COORD_LIMIT as int),
            None => has_unbounded(pts@),
        },
{
    let mut out: Vec<Point> = Vec::new();
    let mut i: usize = 0;
    while i < pts.len()
        invariant
            i <= pts@.len(),
            out@.len() == i,
            forall|j: int|
                0 <= j < i ==> coord_in_range((#[trigger] pts@[j]).0) && coord_in_range(
                    pts@[j].1,
                ),
            forall|j: int|
                0 <= j < i ==> (#[trigger] out@[j])@ == ((pts@[j].0.value(), pts@[j].1.value())),
        decreases pts@.len() - i,
    {
        let (cx, cy) = pts[i];
        let vx: i64 = match cx {
            Coord::Finite(v) => v,
            _ => {
                proof {
                    assert(!coord_in_range(pts@[i as int].0));
                }
                return None;
            },
        };
        let vy: i64 = match cy {
            Coord::Finite(v) => v,
            _ => {
                proof {
                    assert(!coord_in_range(pts@[i as int].1));
                }
                return None;
            },
        };
        if vx < -COORD_LIMIT || vx > COORD_LIMIT || vy < -COORD_LIMIT || vy > COORD_LIMIT {
            proof {
                assert(!coord_in_range(pts@[i as int].0) || !coord_in_range(pts@[i as int].1));
            }
            return None;
        }
        out.push(Point(vx, vy));
        i = i + 1;
    }
    proof {
        assert(pts_view(out@) =~= unwrap_pts(pts@));
    }
    Some(out)
}

/// An immutable, validated snapshot of one position per graph node, with the
/// bounding box derived from those positions.
pub struct ScatterLayout {
    positions: Vec<Point>,
    graph: Graph,
    bbox: BoundingBox,
}

impl ScatterLayout {
    /// The positions, row `i` holding the coordinates of node `i`.
    pub closed spec fn positions_spec(&self) -> Seq<(int, int)> {
        pts_view(self.positions@)
    }

    /// The graph this layout was computed for.
    pub closed spec fn graph_spec(&self) -> Graph {
        self.graph
    }

    #[verifier::type_invariant]
    pub(crate) closed spec fn inv(self) -> bool {
        &&& self.graph.wf()
        &&& self.positions@.len() == self.graph.nodes_spec()
        &&& self.positions@.len() >= 1
        &&& bounded_pts(self.positions_spec(), COORD_LIMIT as int)
        &&& self.bbox.lo() == box_lo(self.positions_spec())
        &&& self.bbox.hi() == box_hi(self.positions_spec())
    }

    /// Validate raw rows against a graph and build the layout.
    ///
    /// Fails with `ShapeMismatch` when the row count differs from the node
    /// count, `EmptyGraph` for a zero-node graph, `NonFiniteCoordinate` when
    /// a row carries a not-a-number mark, and `InfiniteBoundingBox` when a
    /// coordinate is infinite or beyond the representable extent. Exactly the
    /// decision of `layout_check`.
    pub fn new(graph: Graph, positions: Vec<(Coord, Coord)>) -> (r: Result<
        ScatterLayout,
        LayoutError,
    >)
        ensures
            match r {
                Ok(l) => layout_check(graph.nodes_spec(), positions@) is None && l.graph_spec()
                    == graph && l.positions_spec() == unwrap_pts(positions@),
                Err(e) => layout_check(graph.nodes_spec(), positions@) == Some(e),
            },
    {
        proof {
            use_type_invariant(&graph);
        }
        let n = graph.nodes();
        if positions.len() != n {
            return Err(LayoutError::ShapeMismatch);
        }
        if n == 0 {
            return Err(LayoutError::EmptyGraph);
        }
        if frame_has_nan(&positions) {
            return Err(LayoutError::NonFiniteCoordinate);
        }
        let pts = match convert_frame(&positions) {
            Some(v) => v,
            None => {
                return Err(LayoutError::InfiniteBoundingBox);
            },
        };
        let corners = extremes(&pts);
        proof {
            lemma_box_bounded(pts_view(pts@), COORD_LIMIT as int);
        }
        let bbox = BoundingBox::from_corners(corners.0, corners.1);
        Ok(ScatterLayout { positions: pts, graph, bbox })
    }

    /// The bounding box that encompasses all nodes: its corners are exactly
    /// the coordinate-wise extremes of the positions.
    pub fn bbox(&self) -> (r: &BoundingBox)
        ensures
            r.lo() == box_lo(self.positions_spec()),
            r.hi() == box_hi(self.positions_spec()),
    {
        proof {
            use_type_invariant(self);
        }
        &self.bbox
    }

    /// The location of a node.
    pub fn coord(&self, node: usize) -> (r: Point)
        requires
            node < self.graph_spec().nodes_spec(),
        ensures
            r@ == self.positions_spec()[node as int],
    {
        proof {
            use_type_invariant(self);
        }
        self.positions[node]
    }

    /// The graph this layout belongs to.
    pub fn graph(&self) -> (r: &Graph)
        ensures
            r == self.graph_spec(),
    {
        &self.graph
    }

    /// Translate and scale every position to match the target bounding box.
    ///
    /// Fails with `DegenerateBoundingBox` when this layout's own box has zero
    /// width or zero height; otherwise returns the layout whose positions are
    /// exactly `transform_pts` of the old ones into the target corners.
    pub fn transform(self, target: &BoundingBox) -> (r: Result<ScatterLayout, LayoutError>)
        ensures
            match r {
                Ok(l) => {
                    &&& box_lo(self.positions_spec()).0 < box_hi(self.positions_spec()).0
                    &&& box_lo(self.positions_spec()).1 < box_hi(self.positions_spec()).1
                    &&& l.graph_spec() == self.graph_spec()
                    &&& l.positions_spec() == transform_pts(
                        self.positions_spec(),
                        box_lo(self.positions_spec()),
                        box_hi(self.positions_spec()),
                        target.lo(),
                        target.hi(),
                    )
                },
                Err(e) => e == LayoutError::DegenerateBoundingBox && (box_lo(
                    self.positions_spec(),
                ).0 == box_hi(self.positions_spec()).0 || box_lo(self.positions_spec()).1 == box_hi(
                    self.positions_spec(),
                ).1),
            },
    {
        proof {
            use_type_invariant(&self);
            use_type_invariant(target);
            use_type_invariant(&self.bbox);
            let pv = self.positions_spec();
            assert forall|i: int|
                0 <= i < pv.len() implies min_x(pv) <= (#[trigger] pv[i]).0 <= max_x(pv) && min_y(
                pv,
            ) <= pv[i].1 <= max_y(pv) by {
                lemma_box_contains(pv, i);
            }
        }
        let w = self.bbox.width();
        let h = self.bbox.height();
        if w == 0 || h == 0 {
            return Err(LayoutError::DegenerateBoundingBox);
        }
        let pts = transform_points(
            &self.positions,
            self.bbox.lower_left(),
            w,
            h,
            target.lower_left(),
            target.upper_right(),
        );
        let corners = extremes(&pts);
        proof {
            lemma_box_bounded(pts_view(pts@), COORD_LIMIT as int);
        }
        let bbox = BoundingBox::from_corners(corners.0, corners.1);
        Ok(ScatterLayout { positions: pts, graph: self.graph, bbox })
    }
}

/// Rescale one coordinate: `(v - slo) * ts / ss + tlo`, with the guarantees
/// needed to stay in the target interval.
fn transform_one(v: i64, slo: i64, ss: i64, tlo: i64, thi: i64) -> (r: i64)
    requires
        ss >= 1,
        slo <= v <= slo + ss,
        slo + ss <= COORD_LIMIT as int,
        -COORD_LIMIT <= slo,
        -COORD_LIMIT <= tlo <= thi <= COORD_LIMIT,
    ensures
        r == transform_coord(v as int, slo as int, ss as int, tlo as int, (thi - tlo) as int),
        tlo <= r <= thi,
{
    let d: i128 = (v - slo) as i128;
    let ts: i128 = (thi - tlo) as i128;
    proof {
        assert(0 <= d * ts <= (0x4000_0000_0000_0000 as int) * (0x4000_0000_0000_0000 as int))
            by (nonlinear_arith)
            requires
                0 <= d <= 0x4000_0000_0000_0000i128,
                0 <= ts <= 0x4000_0000_0000_0000i128,
        ;
    }
    let prod: i128 = d * ts;
    let q: i128 = crate::math::sdiv_i128(prod, ss as i128);
    proof {
        lemma_div_pos_is_pos(prod as int, ss as int);
        assert(d * ts <= ss * ts) by (nonlinear_arith)
            requires
                0 <= d <= ss as i128,
                ts >= 0,
        ;
        lemma_div_is_ordered(prod as int, ss as int * ts, ss as int);
        lemma_div_by_multiple(ts as int, ss as int);
        assert((ss as int * ts) / (ss as int) == ts);
        assert(q <= ts);
    }
    tlo + (q as i64)
}

/// Rescale every point into the target box, all axes independent.
fn transform_points(
    pts: &Vec<Point>,
    src_lo: Point,
    w: i64,
    h: i64,
    tgt_lo: Point,
    tgt_hi: Point,
) -> (r: Vec<Point>)
    requires
        w >= 1,
        h >= 1,
        forall|i: int|
            0 <= i < pts@.len() ==> src_lo@.0 <= (#[trigger] pts_view(pts@)[i]).0 <= src_lo@.0
                + w && src_lo@.1 <= pts_view(pts@)[i].1 <= src_lo@.1 + h,
        -COORD_LIMIT <= src_lo@.0,
        -COORD_LIMIT <= src_lo@.1,
        src_lo@.0 + w <= COORD_LIMIT as int,
        src_lo@.1 + h <= COORD_LIMIT as int,
        wf_box(tgt_lo@, tgt_hi@),
    ensures
        pts_view(r@) == transform_pts(
            pts_view(pts@),
            src_lo@,
            (src_lo@.0 + w, src_lo@.1 + h),
            tgt_lo@,
            tgt_hi@,
        ),
        bounded_pts(pts_view(r@), COORD_LIMIT as int),
        r@.len() == pts@.len(),
{
    let ghost target = transform_pts(
        pts_view(pts@),
        src_lo@,
        (src_lo@.0 + w as int, src_lo@.1 + h as int),
        tgt_lo@,
        tgt_hi@,
    );
    let mut out: Vec<Point> = Vec::new();
    let mut i: usize = 0;
    while i < pts.len()
        invariant
            i <= pts@.len(),
            out@.len() == i,
            w >= 1,
            h >= 1,
            forall|j: int|
                0 <= j < pts@.len() ==> src_lo@.0 <= (#[trigger] pts_view(pts@)[j]).0 <= src_lo@.0
                    + w && src_lo@.1 <= pts_view(pts@)[j].1 <= src_lo@.1 + h,
            -COORD_LIMIT <= src_lo@.0,
            -COORD_LIMIT <= src_lo@.1,
            src_lo@.0 + w <= COORD_LIMIT as int,
            src_lo@.1 + h <= COORD_LIMIT as int,
            wf_box(tgt_lo@, tgt_hi@),
            target == transform_pts(
                pts_view(pts@),
                src_lo@,
                (src_lo@.0 + w as int, src_lo@.1 + h as int),
                tgt_lo@,
                tgt_hi@,
            ),
            forall|j: int|
                0 <= j < i ==> (#[trigger] pts_view(out@)[j]) == target[j] && tgt_lo@.0 <= pts_view(
                    out@,
                )[j].0 <= tgt_hi@.0 && tgt_lo@.1 <= pts_view(out@)[j].1 <= tgt_hi@.1,
        decreases pts@.len() - i,
    {
        let p = pts[i];
        proof {
            assert(pts_view(pts@)[i as int] == p@);
        }
        let nx = transform_one(p.0, src_lo.0, w, tgt_lo.0, tgt_hi.0);
        let ny = transform_one(p.1, src_lo.1, h, tgt_lo.1, tgt_hi.1);
        let ghost prev = out@;
        out.push(Point(nx, ny));
        proof {
            assert(target[i as int] == (
                transform_coord(p@.0, src_lo@.0, w as int, tgt_lo@.0, tgt_hi@.0 - tgt_lo@.0),
                transform_coord(p@.1, src_lo@.1, h as int, tgt_lo@.1, tgt_hi@.1 - tgt_lo@.1),
            ));
            assert(out@ == prev.push(Point(nx, ny)));
            assert(pts_view(out@)[i as int] == (nx as int, ny as int));
            assert(forall|j: int|
                0 <= j < i ==> #[trigger] pts_view(out@)[j] == pts_view(prev)[j]);
        }
        i = i + 1;
    }
    proof {
        assert(pts_view(out@) =~= target);
    }
    out
}

/// The raw rows of every frame.
pub open spec fn raw_frames_view(fs: Seq<Vec<(Coord, Coord)>>) -> Seq<Seq<(Coord, Coord)>> {
    fs.map_values(|v: Vec<(Coord, Coord)>| v@)
}

/// The integer coordinates of every frame.
pub open spec fn frames_view(fs: Seq<Vec<Point>>) -> Seq<Seq<(int, int)>> {
    fs.map_values(|v: Vec<Point>| pts_view(v@))
}

/// The finite values of every frame's raw rows.
pub open spec fn unwrap_frames(fs: Seq<Seq<(Coord, Coord)>>) -> Seq<Seq<(int, int)>> {
    fs.map_values(|f: Seq<(Coord, Coord)>| unwrap_pts(f))
}

/// Some frame has a row count other than `n`.
pub open spec fn some_bad_shape(fs: Seq<Seq<(Coord, Coord)>>, n: nat) -> bool {
    exists|i: int| 0 <= i < fs.len() && (#[trigger] fs[i]).len() != n
}

/// Some frame carries a not-a-number mark.
pub open spec fn some_nan(fs: Seq<Seq<(Coord, Coord)>>) -> bool {
    exists|i: int| 0 <= i < fs.len() && has_nan(#[trigger] fs[i])
}

/// Some frame carries an infinite or unrepresentable coordinate.
pub open spec fn some_unbounded(fs: Seq<Seq<(Coord, Coord)>>) -> bool {
    exists|i: int| 0 <= i < fs.len() && has_unbounded(#[trigger] fs[i])
}

/// The validation decision for a whole sequence of frames.
pub open spec fn sequence_check(n: nat, fs: Seq<Seq<(Coord, Coord)>>) -> Option<LayoutError> {
    if fs.len() == 0 {
        Some(LayoutError::EmptySequence)
    } else if some_bad_shape(fs, n) {
        Some(LayoutError::ShapeMismatch)
    } else if n == 0 {
        Some(LayoutError::EmptyGraph)
    } else if some_nan(fs) {
        Some(LayoutError::NonFiniteCoordinate)
    } else if some_unbounded(fs) {
        Some(LayoutError::InfiniteBoundingBox)
    } else {
        None
    }
}

/// Smallest x coordinate over a nonempty sequence of nonempty frames.
pub open spec fn fmin_x(fs: Seq<Seq<(int, int)>>) -> int
    decreases fs.len(),
{
    if fs.len() <= 1 {
        min_x(fs[0])
    } else {
        imin(fmin_x(fs.drop_last()), min_x(fs.last()))
    }
}

/// Smallest y coordinate over a nonempty sequence of nonempty frames.
pub open spec fn fmin_y(fs: Seq<Seq<(int, int)>>) -> int
    decreases fs.len(),
{
    if fs.len() <= 1 {
        min_y(fs[0])
    } else {
        imin(fmin_y(fs.drop_last()), min_y(fs.last()))
    }
}

/// Largest x coordinate over a nonempty sequence of nonempty frames.
pub open spec fn fmax_x(fs: Seq<Seq<(int, int)>>) -> int
    decreases fs.len(),
{
    if fs.len() <= 1 {
        max_x(fs[0])
    } else {
        imax(fmax_x(fs.drop_last()), max_x(fs.last()))
    }
}

/// Largest y coordinate over a nonempty sequence of nonempty frames.
pub open spec fn fmax_y(fs: Seq<Seq<(int, int)>>) -> int
    decreases fs.len(),
{
    if fs.len() <= 1 {
        max_y(fs[0])
    } else {
        imax(fmax_y(fs.drop_last()), max_y(fs.last()))
    }
}

/// Lower-left corner of the joint box over all frames.
pub open spec fn fbox_lo(fs: Seq<Seq<(int, int)>>) -> (int, int) {
    (fmin_x(fs), fmin_y(fs))
}

/// Upper-right corner of the joint box over all frames.
pub open spec fn fbox_hi(fs: Seq<Seq<(int, int)>>) -> (int, int) {
    (fmax_x(fs), fmax_y(fs))
}

/// Every frame's own corners lie within the joint corners.
pub proof fn lemma_fbox_contains(fs: Seq<Seq<(int, int)>>, i: int)
    requires
        0 <= i < fs.len(),
    ensures
        fmin_x(fs) <= min_x(fs[i]),
        fmin_y(fs) <= min_y(fs[i]),
        max_x(fs[i]) <= fmax_x(fs),
        max_y(fs[i]) <= fmax_y(fs),
    decreases fs.len(),
{
    if fs.len() > 1 {
        if i < fs.len() - 1 {
            lemma_fbox_contains(fs.drop_last(), i);
            assert(fs.drop_last()[i] == fs[i]);
        }
    }
}

/// The joint corners are ordered and bounded when every frame is nonempty
/// and bounded.
pub proof fn lemma_fbox_bounded(fs: Seq<Seq<(int, int)>>, limit: int)
    requires
        fs.len() >= 1,
        forall|i: int|
            0 <= i < fs.len() ==> (#[trigger] fs[i]).len() >= 1 && bounded_pts(fs[i], limit),
    ensures
        -limit <= fmin_x(fs) <= fmax_x(fs) <= limit,
        -limit <= fmin_y(fs) <= fmax_y(fs) <= limit,
    decreases fs.len(),
{
    if fs.len() == 1 {
        lemma_box_bounded(fs[0], limit);
    } else {
        assert(forall|i: int| 0 <= i < fs.len() - 1 ==> #[trigger] fs.drop_last()[i] == fs[i]);
        lemma_fbox_bounded(fs.drop_last(), limit);
        assert(fs.last() == fs[fs.len() - 1]);
        lemma_box_bounded(fs.last(), limit);
    }
}

/// A sequence of per-step layouts over one graph, with one joint bounding box
/// computed over the positions of every step.
pub struct ScatterLayoutSequence {
    frames: Vec<Vec<Point>>,
    graph: Graph,
    bbox: BoundingBox,
}

impl ScatterLayoutSequence {
    /// The positions of every step; frame `f`, row `i` is node `i` at step `f`.
    pub closed spec fn frames_spec(&self) -> Seq<Seq<(int, int)>> {
        frames_view(self.frames@)
    }

    /// The graph the sequence was computed for.
    pub closed spec fn graph_spec(&self) -> Graph {
        self.graph
    }

    #[verifier::type_invariant]
    pub(crate) closed spec fn inv(self) -> bool {
        &&& self.graph.wf()
        &&& self.frames@.len() >= 1
        &&& self.graph.nodes_spec() >= 1
        &&& forall|i: int|
            0 <= i < self.frames_spec().len() ==> (#[trigger] self.frames_spec()[i]).len()
                == self.graph.nodes_spec() && bounded_pts(self.frames_spec()[i], COORD_LIMIT as int)
        &&& self.bbox.lo() == fbox_lo(self.frames_spec())
        &&& self.bbox.hi() == fbox_hi(self.frames_spec())
    }

    /// Validate raw frames against a graph and build the sequence.
    ///
    /// Fails with `EmptySequence` when no frame is given, `ShapeMismatch`
    /// when some frame's row count differs from the node count, `EmptyGraph`
    /// for a zero-node graph, `NonFiniteCoordinate` when any frame carries a
    /// not-a-number mark, and `InfiniteBoundingBox` when any coordinate is
    /// infinite or beyond the representable extent. Exactly the decision of
    /// `sequence_check`.
    pub fn new(graph: Graph, positions: Vec<Vec<(Coord, Coord)>>) -> (r: Result<
        ScatterLayoutSequence,
        LayoutError,
    >)
        ensures
            match r {
                Ok(s) => sequence_check(graph.nodes_spec(), raw_frames_view(positions@)) is None
                    && s.graph_spec() == graph && s.frames_spec() == unwrap_frames(
                    raw_frames_view(positions@),
                ),
                Err(e) => sequence_check(graph.nodes_spec(), raw_frames_view(positions@)) == Some(
                    e,
                ),
            },
    {
        proof {
            use_type_invariant(&graph);
        }
        let ghost raw = raw_frames_view(positions@);
        let n = graph.nodes();
        if positions.len() == 0 {
            return Err(LayoutError::EmptySequence);
        }
        let mut f: usize = 0;
        while f < positions.len()
            invariant
                f <= positions@.len(),
                raw == raw_frames_view(positions@),
                raw.len() == positions@.len(),
                raw.len() >= 1,
                n == graph.nodes_spec(),
                forall|j: int| 0 <= j < f ==> (#[trigger] raw[j]).len() == n,
            decreases positions@.len() - f,
        {
            if positions[f].len() != n {
                proof {
                    assert(raw[f as int].len() != n);
                }
                return Err(LayoutError::ShapeMismatch);
            }
            proof {
                assert(raw[f as int] == positions@[f as int]@);
            }
            f = f + 1;
        }
        assert(!some_bad_shape(raw, n as nat));
        if n == 0 {
            return Err(LayoutError::EmptyGraph);
        }
        let mut f: usize = 0;
        while f < positions.len()
            invariant
                f <= positions@.len(),
                raw == raw_frames_view(positions@),
                raw.len() == positions@.len(),
                !some_bad_shape(raw, graph.nodes_spec()),
                graph.nodes_spec() > 0,
                forall|j: int| 0 <= j < f ==> !has_nan(#[trigger] raw[j]),
            decreases positions@.len() - f,
        {
            if frame_has_nan(&positions[f]) {
                proof {
                    assert(has_nan(raw[f as int]));
                }
                return Err(LayoutError::NonFiniteCoordinate);
            }
            proof {
                assert(raw[f as int] == positions@[f as int]@);
            }
            f = f + 1;
        }
        assert(!some_nan(raw));
        let mut frames: Vec<Vec<Point>> = Vec::new();
        let mut f: usize = 0;
        while f < positions.len()
            invariant
                f <= positions@.len(),
                raw == raw_frames_view(positions@),
                raw.len() == positions@.len(),
                !some_bad_shape(raw, graph.nodes_spec()),
                graph.nodes_spec() > 0,
                !some_nan(raw),
                frames@.len() == f,
                forall|j: int| 0 <= j < f ==> !has_unbounded(#[trigger] raw[j]),
                forall|j: int|
                    0 <= j < f ==> (#[trigger] frames_view(frames@)[j]) == unwrap_pts(raw[j])
                        && frames_view(frames@)[j].len() == graph.nodes_spec() && bounded_pts(
                        frames_view(frames@)[j],
                        COORD_LIMIT as int,
                    ),
            decreases positions@.len() - f,
        {
            let converted = match convert_frame(&positions[f]) {
                Some(v) => v,
                None => {
                    proof {
                        assert(has_unbounded(raw[f as int]));
                    }
                    return Err(LayoutError::InfiniteBoundingBox);
                },
            };
            let ghost prev = frames@;
            proof {
                assert(raw[f as int] == positions@[f as int]@);
                assert(raw[f as int].len() == graph.nodes_spec());
            }
            frames.push(converted);
            proof {
                assert(frames@ == prev.push(converted));
                assert(frames_view(frames@)[f as int] == pts_view(converted@));
                assert(forall|j: int|
                    0 <= j < f ==> #[trigger] frames_view(frames@)[j] == frames_view(prev)[j]);
            }
            f = f + 1;
        }
        assert(!some_unbounded(raw));
        let ghost fv = frames_view(frames@);
        proof {
            assert(fv =~= unwrap_frames(raw));
        }
        proof {
            assert(frames_view(frames@)[0] == pts_view(frames@[0]@));
            assert(frames@[0]@.len() >= 1);
        }
        let first = &frames[0];
        let c0 = extremes(first);
        let mut lox: i64 = c0.0.0;
        let mut loy: i64 = c0.0.1;
        let mut hix: i64 = c0.1.0;
        let mut hiy: i64 = c0.1.1;
        proof {
            assert(fv.take(1).len() == 1);
            assert(fv.take(1)[0] == fv[0]);
            assert(fv[0] == pts_view(frames@[0]@));
        }
        let mut f: usize = 1;
        while f < frames.len()
            invariant
                1 <= f <= frames@.len(),
                fv == frames_view(frames@),
                fv.len() == frames@.len(),
                forall|j: int| 0 <= j < fv.len() ==> (#[trigger] fv[j]).len() >= 1,
                lox == fmin_x(fv.take(f as int)),
                loy == fmin_y(fv.take(f as int)),
                hix == fmax_x(fv.take(f as int)),
                hiy == fmax_y(fv.take(f as int)),
            decreases frames@.len() - f,
        {
            proof {
                assert(fv[f as int] == pts_view(frames@[f as int]@));
                assert(frames@[f as int]@.len() >= 1);
            }
            let cf = extremes(&frames[f]);
            proof {
                assert(fv.take(f + 1).drop_last() =~= fv.take(f as int));
                assert(fv.take(f + 1).last() == fv[f as int]);
                assert(fv[f as int] == pts_view(frames@[f as int]@));
            }
            if cf.0.0 < lox {
                lox = cf.0.0;
            }
            if cf.0.1 < loy {
                loy = cf.0.1;
            }
            if cf.1.0 > hix {
                hix = cf.1.0;
            }
            if cf.1.1 > hiy {
                hiy = cf.1.1;
            }
            f = f + 1;
        }
        proof {
            assert(fv.take(frames@.len() as int) =~= fv);
            lemma_fbox_bounded(fv, COORD_LIMIT as int);
        }
        let bbox = BoundingBox::from_corners(Point(lox, loy), Point(hix, hiy));
        Ok(ScatterLayoutSequence { frames, graph, bbox })
    }

    /// The number of individual layout frames in the sequence.
    pub fn frames(&self) -> (r: usize)
        ensures
            r == self.frames_spec().len(),
            r >= 1,
    {
        proof {
            use_type_invariant(self);
        }
        self.frames.len()
    }

    /// The positions of one frame.
    pub fn frame(&self, f: usize) -> (r: &Vec<Point>)
        requires
            f < self.frames_spec().len(),
        ensures
            pts_view(r@) == self.frames_spec()[f as int],
    {
        &self.frames[f]
    }

    /// The joint bounding box over all frames: its corners are exactly the
    /// coordinate-wise extremes over every step.
    pub fn bbox(&self) -> (r: &BoundingBox)
        ensures
            r.lo() == fbox_lo(self.frames_spec()),
            r.hi() == fbox_hi(self.frames_spec()),
    {
        proof {
            use_type_invariant(self);
        }
        &self.bbox
    }

    /// The graph this sequence belongs to.
    pub fn graph(&self) -> (r: &Graph)
        ensures
            r == self.graph_spec(),
    {
        &self.graph
    }

    /// The location of a node at one step.
    pub fn coord(&self, frame: usize, node: usize) -> (r: Point)
        requires
            frame < self.frames_spec().len(),
            node < self.graph_spec().nodes_spec(),
        ensures
            r@ == self.frames_spec()[frame as int][node as int],
    {
        proof {
            use_type_invariant(self);
            assert(self.frames_spec()[frame as int] == pts_view(self.frames@[frame as int]@));
            assert(self.frames@[frame as int]@.len() == self.graph_spec().nodes_spec());
        }
        self.frames[frame][node]
    }

    /// Translate and scale every frame to match the target bounding box,
    /// using the joint box as the source so relative motion across frames is
    /// preserved.
    ///
    /// Fails with `DegenerateBoundingBox` when the joint box has zero width
    /// or zero height.
    pub fn transform(self, target: &BoundingBox) -> (r: Result<
        ScatterLayoutSequence,
        LayoutError,
    >)
        ensures
            match r {
                Ok(s) => {
                    &&& fbox_lo(self.frames_spec()).0 < fbox_hi(self.frames_spec()).0
                    &&& fbox_lo(self.frames_spec()).1 < fbox_hi(self.frames_spec()).1
                    &&& s.graph_spec() == self.graph_spec()
                    &&& s.frames_spec().len() == self.frames_spec().len()
                    &&& forall|i: int|
                        0 <= i < self.frames_spec().len() ==> (#[trigger] s.frames_spec()[i])
                            == transform_pts(
                            self.frames_spec()[i],
                            fbox_lo(self.frames_spec()),
                            fbox_hi(self.frames_spec()),
                            target.lo(),
                            target.hi(),
                        )
                },
                Err(e) => e == LayoutError::DegenerateBoundingBox && (fbox_lo(
                    self.frames_spec(),
                ).0 == fbox_hi(self.frames_spec()).0 || fbox_lo(self.frames_spec()).1 == fbox_hi(
                    self.frames_spec(),
                ).1),
            },
    {
        proof {
            use_type_invariant(&self);
            use_type_invariant(target);
            use_type_invariant(&self.bbox);
        }
        let ghost fv = self.frames_spec();
        let w = self.bbox.width();
        let h = self.bbox.height();
        if w == 0 || h == 0 {
            return Err(LayoutError::DegenerateBoundingBox);
        }
        let src_lo = self.bbox.lower_left();
        let tgt_lo = target.lower_left();
        let tgt_hi = target.upper_right();
        let mut out: Vec<Vec<Point>> = Vec::new();
        let mut f: usize = 0;
        while f < self.frames.len()
            invariant
                f <= self.frames@.len(),
                out@.len() == f,
                w >= 1,
                h >= 1,
                fv == self.frames_spec(),
                fv.len() == self.frames@.len(),
                self.inv(),
                src_lo@ == fbox_lo(fv),
                (src_lo@.0 + w, src_lo@.1 + h) == fbox_hi(fv),
                -COORD_LIMIT <= src_lo@.0,
                -COORD_LIMIT <= src_lo@.1,
                src_lo@.0 + w <= COORD_LIMIT as int,
                src_lo@.1 + h <= COORD_LIMIT as int,
                wf_box(tgt_lo@, tgt_hi@),
                tgt_lo@ == target.lo(),
                tgt_hi@ == target.hi(),
                forall|j: int|
                    0 <= j < f ==> (#[trigger] frames_view(out@)[j]) == transform_pts(
                        fv[j],
                        fbox_lo(fv),
                        fbox_hi(fv),
                        target.lo(),
                        target.hi(),
                    ) && frames_view(out@)[j].len() == self.graph.nodes_spec() && bounded_pts(
                        frames_view(out@)[j],
                        COORD_LIMIT as int,
                    ),
            decreases self.frames@.len() - f,
        {
            proof {
                lemma_fbox_contains(fv, f as int);
                assert(fv[f as int] == pts_view(self.frames@[f as int]@));
                assert forall|i: int|
                    0 <= i < fv[f as int].len() implies src_lo@.0 <= (
                    #[trigger] fv[f as int][i]).0 <= src_lo@.0 + w && src_lo@.1
                    <= fv[f as int][i].1 <= src_lo@.1 + h by {
                    lemma_box_contains(fv[f as int], i);
                }
            }
            let nf = transform_points(&self.frames[f], src_lo, w, h, tgt_lo, tgt_hi);
            let ghost prev = out@;
            out.push(nf);
            proof {
                assert(out@ == prev.push(nf));
                assert(frames_view(out@)[f as int] == pts_view(nf@));
                assert(forall|j: int|
                    0 <= j < f ==> #[trigger] frames_view(out@)[j] == frames_view(prev)[j]);
            }
            f = f + 1;
        }
        let ghost ov = frames_view(out@);
        proof {
            assert(ov[0] == pts_view(out@[0]@));
            assert(out@[0]@.len() >= 1);
        }
        let first = &out[0];
        let c0 = extremes(first);
        let mut lox: i64 = c0.0.0;
        let mut loy: i64 = c0.0.1;
        let mut hix: i64 = c0.1.0;
        let mut hiy: i64 = c0.1.1;
        proof {
            assert(ov.take(1).len() == 1);
            assert(ov.take(1)[0] == ov[0]);
        }
        let mut f: usize = 1;
        while f < out.len()
            invariant
                1 <= f <= out@.len(),
                ov == frames_view(out@),
                ov.len() == out@.len(),
                forall|j: int| 0 <= j < ov.len() ==> (#[trigger] ov[j]).len() >= 1,
                lox == fmin_x(ov.take(f as int)),
                loy == fmin_y(ov.take(f as int)),
                hix == fmax_x(ov.take(f as int)),
                hiy == fmax_y(ov.take(f as int)),
            decreases out@.len() - f,
        {
            proof {
                assert(ov[f as int] == pts_view(out@[f as int]@));
                assert(out@[f as int]@.len() >= 1);
            }
            let cf = extremes(&out[f]);
            proof {
                assert(ov.take(f + 1).drop_last() =~= ov.take(f as int));
                assert(ov.take(f + 1).last() == ov[f as int]);
                assert(ov[f as int] == pts_view(out@[f as int]@));
            }
            if cf.0.0 < lox {
                lox = cf.0.0;
            }
            if cf.0.1 < loy {
                loy = cf.0.1;
            }
            if cf.1.0 > hix {
                hix = cf.1.0;
            }
            if cf.1.1 > hiy {
                hiy = cf.1.1;
            }
            f = f + 1;
        }
        proof {
            assert(ov.take(out@.len() as int) =~= ov);
            lemma_fbox_bounded(ov, COORD_LIMIT as int);
        }
        let bbox = BoundingBox::from_corners(Point(lox, loy), Point(hix, hiy));
        Ok(ScatterLayoutSequence { frames: out, graph: self.graph, bbox })
    }
}

} // verus!
