//! Affine conversion between geographic coordinates and raster pixel
//! coordinates, both directions, for a fixed output raster size.
//!
//! Pixel y grows downward while geographic y grows upward, so the vertical
//! axis is flipped; the flip is part of every contract here. All divisions
//! round toward negative infinity, so a pixel result outside
//! `[0, width) x [0, height)` is a valid output and is never clamped.

use vstd::arithmetic::div_mod::{
    lemma_div_is_ordered,
    lemma_div_multiples_vanish,
    lemma_div_nonincreasing,
    lemma_div_of0,
    lemma_div_pos_is_pos,
    lemma_fundamental_div_mod,
    lemma_fundamental_div_mod_converse,
    lemma_mod_division_less_than_divisor,
    lemma_mod_multiples_basic,
};
use vstd::arithmetic::mul::{
    lemma_mul_inequality,
    lemma_mul_is_commutative,
    lemma_mul_nonnegative,
};
use vstd::prelude::*;

use crate::geom::{coord_in_bounds, BoundingBox, GeoError, Point};

verus! {

/// Largest raster side length, in pixels.
pub const MAX_DIM: usize = 46_340;

/// Largest magnitude of a pixel coordinate handed to `pixel_to_geo`.
pub const PIX_LIMIT: i64 = 1_000_000;

/// Converts between geographic space (within a bounding box) and pixel
/// space of a `width x height` raster.
#[derive(Clone, Copy, PartialEq, Eq, Structural, Debug)]
pub struct CoordinateMapper {
    pub bbox: BoundingBox,
    pub width: usize,
    pub height: usize,
}

/// Geographic x represented by pixel column `px`.
pub open spec fn geo_x_of_px(m: CoordinateMapper, px: int) -> int {
    m.bbox.min_x + (px * m.bbox.span_x()) / (m.width as int)
}

/// Geographic y represented by pixel row `py`: row 0 is the top of the
/// box, row `height` its bottom.
pub open spec fn geo_y_of_py(m: CoordinateMapper, py: int) -> int {
    m.bbox.max_y - (py * m.bbox.span_y()) / (m.height as int)
}

/// Pixel column of geographic x.
pub open spec fn px_of_geo_x(m: CoordinateMapper, x: int) -> int {
    ((x - m.bbox.min_x) * (m.width as int)) / m.bbox.span_x()
}

/// Pixel row of geographic y.
pub open spec fn py_of_geo_y(m: CoordinateMapper, y: int) -> int {
    ((m.bbox.max_y - y) * (m.height as int)) / m.bbox.span_y()
}

/// Division rounding toward negative infinity.
fn div_floor(a: i64, b: i64) -> (r: i64)
    requires
        1 <= b <= 4_000_000_000,
        -4_000_000_000_000_000_000 <= a <= 4_000_000_000_000_000_000,
    ensures
        r as int == a as int / b as int,
        a >= 0 ==> 0 <= r <= a,
        a < 0 ==> a <= r <= 0,
{
    if a >= 0 {
        let q: u64 = (a as u64) / (b as u64);
        proof {
            lemma_div_pos_is_pos(a as int, b as int);
            lemma_div_nonincreasing(a as int, b as int);
        }
        q as i64
    } else {
        let n: u64 = (-a) as u64;
        let bb: u64 = b as u64;
        let q: u64 = (n + bb - 1) / bb;
        proof {
            let ni = n as int;
            let bi = b as int;
            let qi = (ni + bi - 1) / bi;
            lemma_fundamental_div_mod(ni + bi - 1, bi);
            lemma_mod_division_less_than_divisor(ni + bi - 1, bi);
            let s = (ni + bi - 1) % bi;
            assert(a as int == (-qi) * bi + (bi - 1 - s)) by (nonlinear_arith)
                requires
                    ni + bi - 1 == bi * qi + s,
                    a as int == -ni,
            ;
            lemma_fundamental_div_mod_converse(a as int, bi, -qi, bi - 1 - s);
            // The quotient magnitude never exceeds the dividend magnitude.
            assert(ni + bi - 1 <= ni * bi) by (nonlinear_arith)
                requires
                    1 <= ni,
                    1 <= bi,
            ;
            lemma_div_is_ordered(ni + bi - 1, ni * bi, bi);
            lemma_div_multiples_vanish(ni, bi);
            assert(bi * ni == ni * bi) by (nonlinear_arith);
            lemma_div_pos_is_pos(ni + bi - 1, bi);
        }
        -(q as i64)
    }
}

impl CoordinateMapper {
    pub open spec fn wf(self) -> bool {
        &&& self.bbox.wf()
        &&& 1 <= self.width <= MAX_DIM
        &&& 1 <= self.height <= MAX_DIM
    }

    /// Builds a mapper, failing fast on a bounding box that does not span
    /// a positive area.
    pub fn new(min_x: i64, min_y: i64, max_x: i64, max_y: i64, width: usize, height: usize) -> (r:
        Result<CoordinateMapper, GeoError>)
        requires
            coord_in_bounds(min_x as int, min_y as int),
            coord_in_bounds(max_x as int, max_y as int),
            1 <= width <= MAX_DIM,
            1 <= height <= MAX_DIM,
        ensures
            r is Ok <==> min_x < max_x && min_y < max_y,
            r matches Ok(m) ==> m == (CoordinateMapper {
                bbox: BoundingBox { min_x, min_y, max_x, max_y },
                width,
                height,
            }) && m.wf(),
            r is Err ==> r == Result::<CoordinateMapper, GeoError>::Err(
                GeoError::DegenerateBoundingBox,
            ),
    {
        match BoundingBox::new(min_x, min_y, max_x, max_y) {
            Ok(bbox) => Ok(CoordinateMapper { bbox, width, height }),
            Err(e) => Err(e),
        }
    }

    /// Maps a pixel position to the geographic location it represents,
    /// flipping the vertical axis.
    pub fn pixel_to_geo(&self, px: i64, py: i64) -> (r: Point)
        requires
            self.wf(),
            -PIX_LIMIT <= px <= PIX_LIMIT,
            -PIX_LIMIT <= py <= PIX_LIMIT,
        ensures
            r.x as int == geo_x_of_px(*self, px as int),
            r.y as int == geo_y_of_py(*self, py as int),
    {
        let sx: i64 = self.bbox.max_x - self.bbox.min_x;
        let sy: i64 = self.bbox.max_y - self.bbox.min_y;
        proof {
            assert(-2_000_000_000_000_000int <= (px as int) * (sx as int)
                <= 2_000_000_000_000_000int && -2_000_000_000_000_000int <= (py as int) * (
            sy as int) <= 2_000_000_000_000_000int) by (nonlinear_arith)
                requires
                    -1_000_000 <= px as int <= 1_000_000,
                    -1_000_000 <= py as int <= 1_000_000,
                    0 <= sx as int <= 2_000_000_000,
                    0 <= sy as int <= 2_000_000_000,
            ;
        }
        let qx: i64 = div_floor(px * sx, self.width as i64);
        let qy: i64 = div_floor(py * sy, self.height as i64);
        Point { x: self.bbox.min_x + qx, y: self.bbox.max_y - qy }
    }

    /// Maps a geographic location to the pixel position that represents
    /// it. The result may lie outside the raster; it is never clamped.
    pub fn geo_to_pixel(&self, x: i64, y: i64) -> (r: (i64, i64))
        requires
            self.wf(),
            coord_in_bounds(x as int, y as int),
        ensures
            r.0 as int == px_of_geo_x(*self, x as int),
            r.1 as int == py_of_geo_y(*self, y as int),
    {
        let dx: i64 = x - self.bbox.min_x;
        let dy: i64 = self.bbox.max_y - y;
        proof {
            assert(-100_000_000_000_000int <= (dx as int) * (self.width as int)
                <= 100_000_000_000_000int && -100_000_000_000_000int <= (dy as int) * (
            self.height as int) <= 100_000_000_000_000int) by (nonlinear_arith)
                requires
                    -2_000_000_000 <= dx as int <= 2_000_000_000,
                    -2_000_000_000 <= dy as int <= 2_000_000_000,
                    1 <= self.width as int <= 46_340,
                    1 <= self.height as int <= 46_340,
            ;
        }
        let px: i64 = div_floor(dx * (self.width as i64), sx_of(&self.bbox));
        let py: i64 = div_floor(dy * (self.height as i64), sy_of(&self.bbox));
        (px, py)
    }
}

/// Horizontal span of a box, in ticks.
fn sx_of(b: &BoundingBox) -> (r: i64)
    requires
        b.wf(),
    ensures
        r as int == b.span_x(),
{
    b.max_x - b.min_x
}

/// Vertical span of a box, in ticks.
fn sy_of(b: &BoundingBox) -> (r: i64)
    requires
        b.wf(),
    ensures
        r as int == b.span_y(),
{
    b.max_y - b.min_y
}

/// The vertical flip is exact at both edges of the raster: pixel row 0
/// maps to the top of the bounding box and pixel row `height` to its
/// bottom, for every column.
pub proof fn lemma_y_flip(m: CoordinateMapper)
    requires
        m.wf(),
    ensures
        geo_y_of_py(m, 0) == m.bbox.max_y,
        geo_y_of_py(m, m.height as int) == m.bbox.min_y,
{
    let h = m.height as int;
    let d = m.bbox.span_y();
    assert(0 * d == 0) by (nonlinear_arith);
    lemma_div_of0(h);
    assert(h * d == d * h) by (nonlinear_arith);
    lemma_div_multiples_vanish(d, h);
    assert((h * d) / h == d);
}

/// A pixel position on the raster (or on its right or bottom edge) maps
/// to a geographic location inside the bounding box.
pub proof fn lemma_geo_in_box(m: CoordinateMapper, px: int, py: int)
    requires
        m.wf(),
        0 <= px <= m.width,
        0 <= py <= m.height,
    ensures
        m.bbox.min_x <= geo_x_of_px(m, px) <= m.bbox.max_x,
        m.bbox.min_y <= geo_y_of_py(m, py) <= m.bbox.max_y,
{
    let w = m.width as int;
    let h = m.height as int;
    let dx = m.bbox.span_x();
    let dy = m.bbox.span_y();
    lemma_mul_nonnegative(px, dx);
    lemma_div_pos_is_pos(px * dx, w);
    lemma_mul_inequality(px, w, dx);
    lemma_div_is_ordered(px * dx, w * dx, w);
    lemma_mul_is_commutative(w, dx);
    lemma_div_multiples_vanish(dx, w);
    lemma_mul_nonnegative(py, dy);
    lemma_div_pos_is_pos(py * dy, h);
    lemma_mul_inequality(py, h, dy);
    lemma_div_is_ordered(py * dy, h * dy, h);
    lemma_mul_is_commutative(h, dy);
    lemma_div_multiples_vanish(dy, h);
}

/// One direction of the round trip: mapping a pixel column to geographic
/// space and back loses at most one pixel, and loses nothing when the
/// horizontal span is a multiple of the width. `n` is the pixel count
/// (the raster side) and `d` the geographic span it covers, in ticks.
proof fn lemma_axis_round_trip(n: int, d: int, p: int)
    requires
        1 <= n <= d,
        0 <= p < n,
    ensures
        p - 1 <= ((p * d) / n * n) / d <= p,
        d % n == 0 ==> ((p * d) / n * n) / d == p,
{
    let g = (p * d) / n;
    lemma_fundamental_div_mod(p * d, n);
    lemma_mod_division_less_than_divisor(p * d, n);
    let s = (p * d) % n;
    assert(g * n == p * d - s) by (nonlinear_arith)
        requires
            p * d == n * g + s,
    ;
    if s == 0 {
        assert(g * n == d * p) by (nonlinear_arith)
            requires
                g * n == p * d,
        ;
        lemma_div_multiples_vanish(p, d);
    } else {
        assert(g * n == (p - 1) * d + (d - s)) by (nonlinear_arith)
            requires
                g * n == p * d - s,
    ;
        lemma_fundamental_div_mod_converse(g * n, d, p - 1, d - s);
    }
    if d % n == 0 {
        lemma_fundamental_div_mod(d, n);
        let k = d / n;
        assert(p * d == (p * k) * n) by (nonlinear_arith)
            requires
                d == n * k,
        ;
        lemma_mod_multiples_basic(p * k, n);
        assert(s == 0);
    }
}

/// Round trip: `geo_to_pixel` after `pixel_to_geo` returns the pixel it
/// started from, up to one pixel of rounding, and returns it exactly when
/// the box spans a whole number of ticks per pixel. Needs a box at least
/// one tick wide per pixel on each axis; on a coarser box the fixed-point
/// rounding can lose more than one pixel.
pub proof fn lemma_round_trip(m: CoordinateMapper, px: int, py: int)
    requires
        m.wf(),
        0 <= px < m.width,
        0 <= py < m.height,
        m.bbox.span_x() >= m.width as int,
        m.bbox.span_y() >= m.height as int,
    ensures
        px - 1 <= px_of_geo_x(m, geo_x_of_px(m, px)) <= px,
        py - 1 <= py_of_geo_y(m, geo_y_of_py(m, py)) <= py,
        m.bbox.span_x() % (m.width as int) == 0 ==> px_of_geo_x(m, geo_x_of_px(m, px)) == px,
        m.bbox.span_y() % (m.height as int) == 0 ==> py_of_geo_y(m, geo_y_of_py(m, py)) == py,
{
    lemma_axis_round_trip(m.width as int, m.bbox.span_x(), px);
    lemma_axis_round_trip(m.height as int, m.bbox.span_y(), py);
}

} // verus!
