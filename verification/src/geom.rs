//! Points, bounding boxes and squared distances in fixed-point
//! geographic coordinates.

use vstd::prelude::*;

verus! {

/// Number of coordinate ticks per geographic unit. A coordinate stored as
/// `x` ticks denotes the geographic value `x / GEO_SCALE`.
pub const GEO_SCALE: i64 = 100;

/// Largest magnitude a coordinate may have, in ticks. Keeps every squared
/// distance within `i64` range.
pub const COORD_LIMIT: i64 = 1_000_000_000;

/// A location in geographic space, in ticks.
#[derive(Clone, Copy, PartialEq, Eq, Structural, Debug)]
pub struct Point {
    pub x: i64,
    pub y: i64,
}

/// Errors of the coordinate layer.
#[derive(Clone, Copy, PartialEq, Eq, Structural, Debug)]
pub enum GeoError {
    /// The bounding box does not span a positive area.
    DegenerateBoundingBox,
}

/// The geographic rectangle that a raster represents, in ticks.
#[derive(Clone, Copy, PartialEq, Eq, Structural, Debug)]
pub struct BoundingBox {
    pub min_x: i64,
    pub min_y: i64,
    pub max_x: i64,
    pub max_y: i64,
}

/// A coordinate pair small enough that all distance arithmetic stays in
/// range.
pub open spec fn coord_in_bounds(x: int, y: int) -> bool {
    -COORD_LIMIT <= x <= COORD_LIMIT && -COORD_LIMIT <= y <= COORD_LIMIT
}

pub open spec fn point_in_bounds(p: Point) -> bool {
    coord_in_bounds(p.x as int, p.y as int)
}

/// Squared Euclidean distance between `(x1, y1)` and `(x2, y2)`, in ticks
/// squared.
pub open spec fn dist_sq(x1: int, y1: int, x2: int, y2: int) -> int {
    (x1 - x2) * (x1 - x2) + (y1 - y2) * (y1 - y2)
}

impl BoundingBox {
    /// A box is well formed when it spans a positive area and its corners
    /// are in coordinate range.
    pub open spec fn wf(self) -> bool {
        &&& self.min_x < self.max_x
        &&& self.min_y < self.max_y
        &&& coord_in_bounds(self.min_x as int, self.min_y as int)
        &&& coord_in_bounds(self.max_x as int, self.max_y as int)
    }

    pub open spec fn span_x(self) -> int {
        self.max_x - self.min_x
    }

    pub open spec fn span_y(self) -> int {
        self.max_y - self.min_y
    }

    /// Builds a box, rejecting one whose area is not positive.
    pub fn new(min_x: i64, min_y: i64, max_x: i64, max_y: i64) -> (r: Result<
        BoundingBox,
        GeoError,
    >)
        requires
            coord_in_bounds(min_x as int, min_y as int),
            coord_in_bounds(max_x as int, max_y as int),
        ensures
            r is Ok <==> min_x < max_x && min_y < max_y,
            r matches Ok(b) ==> b == (BoundingBox { min_x, min_y, max_x, max_y }) && b.wf(),
            r is Err ==> r == Result::<BoundingBox, GeoError>::Err(GeoError::DegenerateBoundingBox),
    {
        if min_x < max_x && min_y < max_y {
            Ok(BoundingBox { min_x, min_y, max_x, max_y })
        } else {
            Err(GeoError::DegenerateBoundingBox)
        }
    }
}

pub proof fn lemma_dist_sq_nonneg(x1: int, y1: int, x2: int, y2: int)
    ensures
        dist_sq(x1, y1, x2, y2) >= 0,
        dist_sq(x1, y1, x2, y2) == 0 <==> x1 == x2 && y1 == y2,
{
    assert((x1 - x2) * (x1 - x2) >= 0 && (y1 - y2) * (y1 - y2) >= 0 && ((x1 - x2) * (x1 - x2) == 0
        <==> x1 == x2) && ((y1 - y2) * (y1 - y2) == 0 <==> y1 == y2)) by (nonlinear_arith);
}

pub proof fn lemma_dist_sq_bounded(x1: int, y1: int, x2: int, y2: int)
    requires
        coord_in_bounds(x1, y1),
        coord_in_bounds(x2, y2),
    ensures
        (x1 - x2) * (x1 - x2) <= 4_000_000_000_000_000_000,
        (y1 - y2) * (y1 - y2) <= 4_000_000_000_000_000_000,
        dist_sq(x1, y1, x2, y2) <= 8_000_000_000_000_000_000,
{
    assert((x1 - x2) * (x1 - x2) <= 4_000_000_000_000_000_000 && (y1 - y2) * (y1 - y2)
        <= 4_000_000_000_000_000_000) by (nonlinear_arith)
        requires
            -2_000_000_000 <= x1 - x2 <= 2_000_000_000,
            -2_000_000_000 <= y1 - y2 <= 2_000_000_000,
    ;
}

/// Squared Euclidean distance between two points.
pub fn dist_sq_exec(p: Point, q: Point) -> (r: i64)
    requires
        point_in_bounds(p),
        point_in_bounds(q),
    ensures
        r as int == dist_sq(p.x as int, p.y as int, q.x as int, q.y as int),
        0 <= r <= 8_000_000_000_000_000_000,
{
    proof {
        lemma_dist_sq_nonneg(p.x as int, p.y as int, q.x as int, q.y as int);
        lemma_dist_sq_bounded(p.x as int, p.y as int, q.x as int, q.y as int);
    }
    let dx: i64 = p.x - q.x;
    let dy: i64 = p.y - q.y;
    dx * dx + dy * dy
}

} // verus!
