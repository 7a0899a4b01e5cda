//! The output raster, the per-pixel blend, the grid-sampled heatmap
//! rasterizer and the nearest-neighbor background blitter.
//!
//! The rasterizer partitions the raster into `cluster_size`-sided square
//! cells (clipped at the right and bottom edges), samples the influence
//! field once per cell at the geographic location of the cell's top-left
//! pixel, and blends every pixel of the cell toward green by the sampled
//! fraction. Sampled values are clamped to `[0, FIELD_ONE]` before
//! blending, and a singular sample (the location coincides with a point)
//! blends as 0, leaving the base color: a single bad cell never corrupts
//! or aborts a frame.

use vstd::arithmetic::div_mod::{
    lemma_basic_div,
    lemma_div_is_ordered,
    lemma_div_multiples_vanish,
    lemma_div_nonincreasing,
    lemma_div_plus_one,
    lemma_div_pos_is_pos,
    lemma_fundamental_div_mod,
    lemma_fundamental_div_mod_converse,
    lemma_mod_division_less_than_divisor,
};
use vstd::arithmetic::mul::{
    lemma_mul_inequality,
    lemma_mul_is_commutative,
    lemma_mul_nonnegative,
};
use vstd::prelude::*;

use crate::field::{
    coincides,
    evaluate,
    field_value,
    inv_sum,
    inv_term,
    FeatureSet,
    FieldValue,
    FIELD_ONE,
    INV_NUMER,
};
use crate::geom::{dist_sq, dist_sq_exec, point_in_bounds, Point};
use crate::sqrt::{lemma_sqrt_floor_exists, sqrt_floor};
use crate::mapper::{geo_x_of_px, geo_y_of_py, lemma_geo_in_box, CoordinateMapper, MAX_DIM};
use crate::proximity::{count_within, score, MAX_RADIUS};

verus! {

/// A dense row-major grid of packed `0xRRGGBB` pixels.
pub struct Raster {
    pub width: usize,
    pub height: usize,
    pub pixels: Vec<u32>,
}

impl Raster {
    pub open spec fn wf(self) -> bool {
        &&& 1 <= self.width <= MAX_DIM
        &&& 1 <= self.height <= MAX_DIM
        &&& self.pixels@.len() == (self.width as int) * (self.height as int)
        &&& forall|i: int| 0 <= i < self.pixels@.len() ==> #[trigger] self.pixels@[i] <= 0xFFFFFF
    }

    /// A raster of one solid color.
    pub fn new_filled(width: usize, height: usize, color: u32) -> (r: Raster)
        requires
            1 <= width <= MAX_DIM,
            1 <= height <= MAX_DIM,
            color <= 0xFFFFFF,
        ensures
            r.wf(),
            r.width == width,
            r.height == height,
            forall|i: int| 0 <= i < r.pixels@.len() ==> #[trigger] r.pixels@[i] == color,
    {
        proof {
            assert((width as int) * (height as int) <= 46_340int * 46_340int) by (nonlinear_arith)
                requires
                    1 <= width as int <= 46_340,
                    1 <= height as int <= 46_340,
            ;
            lemma_mul_nonnegative(width as int, height as int);
        }
        let total: usize = width * height;
        let mut pixels: Vec<u32> = Vec::new();
        let mut i: usize = 0;
        while i < total
            invariant
                i <= total,
                pixels@.len() == i,
                forall|k: int| 0 <= k < i ==> #[trigger] pixels@[k] == color,
            decreases total - i,
        {
            pixels.push(color);
            i = i + 1;
        }
        Raster { width, height, pixels }
    }
}

/// Red channel of a packed color.
pub open spec fn chan_r(c: u32) -> int {
    (c as int / 65536) % 256
}

/// Green channel of a packed color.
pub open spec fn chan_g(c: u32) -> int {
    (c as int / 256) % 256
}

/// Blue channel of a packed color.
pub open spec fn chan_b(c: u32) -> int {
    c as int % 256
}

/// Channels reassembled into a packed color.
pub open spec fn pack_rgb(r: int, g: int, b: int) -> int {
    r * 65536 + g * 256 + b
}

/// The blend of one pixel toward the heat target, by the fixed-point
/// fraction `v` of `FIELD_ONE`: green moves toward 255 by `v` of its
/// remaining distance, red and blue move toward 0 by `v` of their value.
pub open spec fn blend_spec(c: u32, v: int) -> int {
    pack_rgb(
        chan_r(c) - (chan_r(c) * v) / (FIELD_ONE as int),
        chan_g(c) + ((255 - chan_g(c)) * v) / (FIELD_ONE as int),
        chan_b(c) - (chan_b(c) * v) / (FIELD_ONE as int),
    )
}

/// The fraction of a non-negative quantity keeps its range.
proof fn lemma_frac_le(a: int, v: int)
    requires
        0 <= a,
        0 <= v <= FIELD_ONE,
    ensures
        0 <= (a * v) / (FIELD_ONE as int) <= a,
{
    let one = FIELD_ONE as int;
    lemma_mul_nonnegative(a, v);
    lemma_div_pos_is_pos(a * v, one);
    lemma_mul_inequality(v, one, a);
    lemma_mul_is_commutative(a, v);
    lemma_mul_is_commutative(a, one);
    lemma_div_is_ordered(a * v, a * one, one);
    lemma_mul_is_commutative(one, a);
    lemma_div_multiples_vanish(a, one);
}

/// Every channel of a packed color is a byte.
proof fn lemma_chan_bounds(c: u32)
    ensures
        0 <= chan_r(c) <= 255,
        0 <= chan_g(c) <= 255,
        0 <= chan_b(c) <= 255,
{
    lemma_mod_division_less_than_divisor(c as int / 65536, 256);
    lemma_mod_division_less_than_divisor(c as int / 256, 256);
    lemma_mod_division_less_than_divisor(c as int, 256);
}

/// Blends one pixel toward the heat target by the fraction `v`.
pub fn blend(c: u32, v: i64) -> (r: u32)
    requires
        0 <= v <= FIELD_ONE,
    ensures
        r as int == blend_spec(c, v as int),
        r <= 0xFFFFFF,
{
    proof {
        lemma_chan_bounds(c);
        lemma_frac_le(chan_r(c), v as int);
        lemma_frac_le(255 - chan_g(c), v as int);
        lemma_frac_le(chan_b(c), v as int);
    }
    let red: u32 = (c / 65536) % 256;
    let green: u32 = (c / 256) % 256;
    let blue: u32 = c % 256;
    let vv: u32 = v as u32;
    let minus_red: u32 = (red * vv) / 1000;
    let plus_green: u32 = ((255 - green) * vv) / 1000;
    let minus_blue: u32 = (blue * vv) / 1000;
    (red - minus_red) * 65536 + (green + plus_green) * 256 + (blue - minus_blue)
}

/// The heat fraction actually blended at a location: 0 for a singular
/// sample, otherwise the field value clamped to `[0, FIELD_ONE]`.
pub open spec fn heat_at(pts: Seq<Point>, lx: int, ly: int) -> int {
    if coincides(pts, lx, ly) {
        0
    } else if field_value(pts, lx, ly) < 0 {
        0
    } else if field_value(pts, lx, ly) > FIELD_ONE {
        FIELD_ONE as int
    } else {
        field_value(pts, lx, ly)
    }
}

/// The heat sampled for the grid cell with indices `(cx, cy)`: the field
/// at the geographic location of the cell's top-left pixel.
pub open spec fn cell_heat(pts: Seq<Point>, m: CoordinateMapper, cs: int, cx: int, cy: int) -> int {
    heat_at(pts, geo_x_of_px(m, cx * cs), geo_y_of_py(m, cy * cs))
}

/// The blend strategy of the rasterizer, selected by configuration:
/// either the inverse-distance field blended as a green fraction, or a
/// flat warning tint on every cell that has a point within the given
/// radius (in ticks).
#[derive(Clone, Copy, PartialEq, Eq, Structural, Debug)]
pub enum BlendMode {
    InverseDistance,
    ProximityThreshold(i64),
}

/// The flat tint of a cell under the proximity-threshold strategy: red
/// doubled (saturating at 255), green and blue halved.
pub open spec fn tint_spec(c: u32) -> int {
    pack_rgb(
        if 2 * chan_r(c) > 255 {
            255int
        } else {
            2 * chan_r(c)
        },
        chan_g(c) / 2,
        chan_b(c) / 2,
    )
}

/// Applies the proximity-threshold tint to one pixel.
pub fn tint_hot(c: u32) -> (r: u32)
    ensures
        r as int == tint_spec(c),
        r <= 0xFFFFFF,
{
    proof {
        lemma_chan_bounds(c);
    }
    let red: u32 = (c / 65536) % 256;
    let green: u32 = (c / 256) % 256;
    let blue: u32 = c % 256;
    let red2: u32 = if red * 2 > 255 {
        255
    } else {
        red * 2
    };
    red2 * 65536 + (green / 2) * 256 + blue / 2
}

/// Under the proximity-threshold strategy, a cell is hot when some point
/// lies strictly within the radius of its anchor location.
pub open spec fn cell_hot(
    pts: Seq<Point>,
    m: CoordinateMapper,
    cs: int,
    radius: int,
    cx: int,
    cy: int,
) -> bool {
    count_within(pts, geo_x_of_px(m, cx * cs), geo_y_of_py(m, cy * cs), radius) > 0
}

/// The value sampled once per cell: the clamped field value under the
/// inverse-distance strategy, or 1 for a hot cell and 0 for a cold one
/// under the proximity-threshold strategy.
pub open spec fn cell_sample(
    pts: Seq<Point>,
    m: CoordinateMapper,
    cs: int,
    mode: BlendMode,
    cx: int,
    cy: int,
) -> int {
    match mode {
        BlendMode::InverseDistance => cell_heat(pts, m, cs, cx, cy),
        BlendMode::ProximityThreshold(radius) => if cell_hot(pts, m, cs, radius as int, cx, cy) {
            1int
        } else {
            0int
        },
    }
}

/// The pixel at `(px, py)` of a rendered frame over the base color `c`.
pub open spec fn rendered_pixel(
    pts: Seq<Point>,
    m: CoordinateMapper,
    cs: int,
    mode: BlendMode,
    c: u32,
    px: int,
    py: int,
) -> int {
    match mode {
        BlendMode::InverseDistance => blend_spec(c, cell_heat(pts, m, cs, px / cs, py / cs)),
        BlendMode::ProximityThreshold(radius) => if cell_hot(
            pts,
            m,
            cs,
            radius as int,
            px / cs,
            py / cs,
        ) {
            tint_spec(c)
        } else {
            c as int
        },
    }
}

/// Quotient and remainder of a row-major index.
proof fn lemma_row_major(row: int, col: int, n: int)
    requires
        0 <= col < n,
        0 <= row,
    ensures
        (row * n + col) / n == row,
        (row * n + col) % n == col,
{
    lemma_fundamental_div_mod_converse(row * n + col, n, row, col);
}

/// The number of (possibly clipped) cells covering one raster axis.
proof fn lemma_cells_count(w: int, cs: int)
    requires
        1 <= w,
        1 <= cs,
    ensures
        (w + cs - 1) / cs == (w - 1) / cs + 1,
        1 <= (w + cs - 1) / cs <= w,
{
    lemma_div_plus_one(w - 1, cs);
    lemma_div_pos_is_pos(w - 1, cs);
    lemma_div_nonincreasing(w - 1, cs);
}

/// The anchor pixel of every cell lies on the raster.
proof fn lemma_anchor_in_range(w: int, cs: int, cx: int)
    requires
        1 <= w,
        1 <= cs,
        0 <= cx < (w + cs - 1) / cs,
    ensures
        0 <= cx * cs < w,
{
    lemma_cells_count(w, cs);
    lemma_mul_nonnegative(cx, cs);
    lemma_mul_inequality(cx, (w - 1) / cs, cs);
    lemma_fundamental_div_mod(w - 1, cs);
    lemma_mod_division_less_than_divisor(w - 1, cs);
    assert(((w - 1) / cs) * cs == cs * ((w - 1) / cs)) by (nonlinear_arith);
}

/// Renders one frame: samples the field once per grid cell and blends
/// every pixel of the cell, clipped at the raster edge, over its base
/// color. Pure in `base`; every pixel of the result is defined by its
/// cell's sample and nothing else.
#[verifier::loop_isolation(false)]
pub fn render(
    features: &FeatureSet,
    candidate: Point,
    base: &Raster,
    m: &CoordinateMapper,
    cluster_size: usize,
    mode: BlendMode,
) -> (r: Raster)
    requires
        features.wf(),
        point_in_bounds(candidate),
        m.wf(),
        base.wf(),
        base.width == m.width,
        base.height == m.height,
        1 <= cluster_size <= MAX_DIM,
        mode matches BlendMode::ProximityThreshold(radius) ==> 0 <= radius <= MAX_RADIUS,
    ensures
        r.wf(),
        r.width == base.width,
        r.height == base.height,
        forall|px: int, py: int|
            0 <= px < base.width && 0 <= py < base.height ==> #[trigger] r.pixels@[py * (
            base.width as int) + px] == rendered_pixel(
                features.points().push(candidate),
                *m,
                cluster_size as int,
                mode,
                base.pixels@[py * (base.width as int) + px],
                px,
                py,
            ),
{
    let ghost pts = features.points().push(candidate);
    let w: usize = m.width;
    let h: usize = m.height;
    let cs: usize = cluster_size;
    let ncx: usize = (w + cs - 1) / cs;
    let ncy: usize = (h + cs - 1) / cs;
    proof {
        lemma_cells_count(w as int, cs as int);
        lemma_cells_count(h as int, cs as int);
        assert((ncy as int) * (ncx as int) <= 46_340int * 46_340int) by (nonlinear_arith)
            requires
                1 <= ncx as int <= 46_340,
                1 <= ncy as int <= 46_340,
        ;
        assert((h as int) * (w as int) <= 46_340int * 46_340int) by (nonlinear_arith)
            requires
                1 <= w as int <= 46_340,
                1 <= h as int <= 46_340,
        ;
    }
    let mut heats: Vec<i64> = Vec::new();
    let mut cy: usize = 0;
    while cy < ncy
        invariant
            cy <= ncy,
            heats@.len() == (cy as int) * (ncx as int),
            forall|k: int|
                0 <= k < heats@.len() ==> 0 <= #[trigger] heats@[k] <= FIELD_ONE && heats@[k]
                    == cell_sample(pts, *m, cs as int, mode, k % (ncx as int), k / (ncx as int)),
        decreases ncy - cy,
    {
        let mut cx: usize = 0;
        while cx < ncx
            invariant
                cy < ncy,
                cx <= ncx,
                heats@.len() == (cy as int) * (ncx as int) + cx as int,
                forall|k: int|
                    0 <= k < heats@.len() ==> 0 <= #[trigger] heats@[k] <= FIELD_ONE && heats@[k]
                        == cell_sample(pts, *m, cs as int, mode, k % (ncx as int), k / (ncx as int)),
            decreases ncx - cx,
        {
            proof {
                lemma_anchor_in_range(w as int, cs as int, cx as int);
                lemma_anchor_in_range(h as int, cs as int, cy as int);
                lemma_geo_in_box(*m, (cx as int) * (cs as int), (cy as int) * (cs as int));
            }
            let ax: usize = cx * cs;
            let ay: usize = cy * cs;
            let loc = m.pixel_to_geo(ax as i64, ay as i64);
            let heat: i64 = match mode {
                BlendMode::InverseDistance => {
                    let fv = evaluate(features, candidate, loc);
                    match fv {
                        FieldValue::Singular => 0,
                        FieldValue::Value(x) => if x < 0 {
                            0
                        } else if x > FIELD_ONE {
                            FIELD_ONE
                        } else {
                            x
                        },
                    }
                },
                BlendMode::ProximityThreshold(radius) => {
                    let near_features: bool = score(features, loc, radius) > 0;
                    proof {
                        assert((radius as int) * (radius as int) <= 4_000_000_000_000_000_000int)
                            by (nonlinear_arith)
                            requires
                                0 <= radius as int <= 2_000_000_000,
                        ;
                        assert(pts.drop_last() =~= features.points());
                        assert(pts.last() == candidate);
                    }
                    let hot: bool = near_features || dist_sq_exec(candidate, loc) < radius
                        * radius;
                    if hot {
                        1
                    } else {
                        0
                    }
                },
            };
            proof {
                assert(heat as int == cell_sample(pts, *m, cs as int, mode, cx as int, cy as int));
                lemma_row_major(cy as int, cx as int, ncx as int);
            }
            heats.push(heat);
            cx = cx + 1;
        }
        proof {
            assert((cy as int) * (ncx as int) + (ncx as int) == (cy as int + 1) * (ncx as int))
                by (nonlinear_arith);
        }
        cy = cy + 1;
    }
    let mut out: Vec<u32> = Vec::new();
    let mut py: usize = 0;
    while py < h
        invariant
            py <= h,
            heats@.len() == (ncy as int) * (ncx as int),
            forall|k: int|
                0 <= k < heats@.len() ==> 0 <= #[trigger] heats@[k] <= FIELD_ONE && heats@[k]
                    == cell_sample(pts, *m, cs as int, mode, k % (ncx as int), k / (ncx as int)),
            out@.len() == (py as int) * (w as int),
            forall|k: int|
                0 <= k < out@.len() ==> #[trigger] out@[k] <= 0xFFFFFF && out@[k]
                    == rendered_pixel(
                    pts,
                    *m,
                    cs as int,
                    mode,
                    base.pixels@[k],
                    k % (w as int),
                    k / (w as int),
                ),
        decreases h - py,
    {
        let mut px: usize = 0;
        while px < w
            invariant
                py < h,
                px <= w,
                out@.len() == (py as int) * (w as int) + px as int,
                forall|k: int|
                    0 <= k < out@.len() ==> #[trigger] out@[k] <= 0xFFFFFF && out@[k]
                        == rendered_pixel(
                        pts,
                        *m,
                        cs as int,
                        mode,
                        base.pixels@[k],
                        k % (w as int),
                        k / (w as int),
                    ),
            decreases w - px,
        {
            proof {
                lemma_div_pos_is_pos(px as int, cs as int);
                lemma_div_pos_is_pos(py as int, cs as int);
                lemma_div_is_ordered(px as int, w as int - 1, cs as int);
                lemma_div_is_ordered(py as int, h as int - 1, cs as int);
                let cxi = (px as int) / (cs as int);
                let cyi = (py as int) / (cs as int);
                assert(cyi * (ncx as int) + cxi < (ncy as int) * (ncx as int)) by (nonlinear_arith)
                    requires
                        0 <= cxi < ncx as int,
                        0 <= cyi < ncy as int,
                ;
                lemma_row_major(cyi, cxi, ncx as int);
                assert((py as int) * (w as int) + (px as int) < (h as int) * (w as int))
                    by (nonlinear_arith)
                    requires
                        0 <= px as int,
                        (px as int) < (w as int),
                        0 <= py as int,
                        (py as int) < (h as int),
                ;
                lemma_row_major(py as int, px as int, w as int);
                assert(base.pixels@.len() == (w as int) * (h as int));
                assert((w as int) * (h as int) == (h as int) * (w as int)) by (nonlinear_arith);
            }
            let ci: usize = (py / cs) * ncx + (px / cs);
            let b: u32 = base.pixels[py * w + px];
            let hv: i64 = heats[ci];
            let c2: u32 = match mode {
                BlendMode::InverseDistance => blend(b, hv),
                BlendMode::ProximityThreshold(_) => if hv == 1 {
                    tint_hot(b)
                } else {
                    b
                },
            };
            out.push(c2);
            px = px + 1;
        }
        proof {
            assert((py as int) * (w as int) + (w as int) == (py as int + 1) * (w as int))
                by (nonlinear_arith);
        }
        py = py + 1;
    }
    let result = Raster { width: w, height: h, pixels: out };
    proof {
        assert((h as int) * (w as int) == (w as int) * (h as int)) by (nonlinear_arith);
        assert forall|px: int, py2: int| 0 <= px < w && 0 <= py2 < h implies #[trigger] result.pixels@[py2
            * (w as int) + px] == rendered_pixel(
            pts,
            *m,
            cs as int,
            mode,
            base.pixels@[py2 * (w as int) + px],
            px,
            py2,
        ) by {
            assert(py2 * (w as int) + px < (h as int) * (w as int)) by (nonlinear_arith)
                requires
                    0 <= px < w as int,
                    0 <= py2 < h as int,
            ;
            lemma_row_major(py2, px, w as int);
        }
    }
    result
}

/// A scaled source index stays inside the source axis.
proof fn lemma_scale_index(x: int, w: int, s: int)
    requires
        0 <= x < w,
        1 <= s,
    ensures
        0 <= (x * s) / w < s,
{
    lemma_mul_nonnegative(x, s);
    lemma_div_pos_is_pos(x * s, w);
    lemma_fundamental_div_mod(x * s, w);
    lemma_mod_division_less_than_divisor(x * s, w);
    let q = (x * s) / w;
    if q >= s {
        assert(x * s >= s * w) by (nonlinear_arith)
            requires
                x * s == w * q + (x * s) % w,
                (x * s) % w >= 0,
                q >= s,
                w >= 1,
        ;
        assert(x >= w) by (nonlinear_arith)
            requires
                x * s >= s * w,
                s >= 1,
        ;
        assert(false);
    }
}

/// Nearest-neighbor resamples a source raster into a `width x height`
/// base layer: destination pixel `(x, y)` takes the source pixel at
/// `(x * src_w / width, y * src_h / height)`, with integer division and
/// no interpolation or aspect-ratio correction.
#[verifier::loop_isolation(false)]
pub fn blit(src: &Raster, width: usize, height: usize) -> (r: Raster)
    requires
        src.wf(),
        1 <= width <= MAX_DIM,
        1 <= height <= MAX_DIM,
    ensures
        r.wf(),
        r.width == width,
        r.height == height,
        forall|x: int, y: int|
            0 <= x < width && 0 <= y < height ==> #[trigger] r.pixels@[y * (width as int) + x]
                == src.pixels@[((y * (src.height as int)) / (height as int)) * (src.width as int)
                + (x * (src.width as int)) / (width as int)],
{
    let sw: usize = src.width;
    let sh: usize = src.height;
    proof {
        assert((height as int) * (width as int) <= 46_340int * 46_340int) by (nonlinear_arith)
            requires
                1 <= width as int <= 46_340,
                1 <= height as int <= 46_340,
        ;
    }
    let mut out: Vec<u32> = Vec::new();
    let mut y: usize = 0;
    while y < height
        invariant
            y <= height,
            out@.len() == (y as int) * (width as int),
            forall|k: int|
                0 <= k < out@.len() ==> #[trigger] out@[k] <= 0xFFFFFF && out@[k] == src.pixels@[((
                k / (width as int)) * (src.height as int) / (height as int)) * (src.width as int)
                    + ((k % (width as int)) * (src.width as int)) / (width as int)],
        decreases height - y,
    {
        let mut x: usize = 0;
        while x < width
            invariant
                y < height,
                x <= width,
                out@.len() == (y as int) * (width as int) + x as int,
                forall|k: int|
                    0 <= k < out@.len() ==> #[trigger] out@[k] <= 0xFFFFFF && out@[k]
                        == src.pixels@[((k / (width as int)) * (src.height as int) / (
                    height as int)) * (src.width as int) + ((k % (width as int)) * (
                    src.width as int)) / (width as int)],
            decreases width - x,
        {
            proof {
                lemma_scale_index(x as int, width as int, sw as int);
                lemma_scale_index(y as int, height as int, sh as int);
                assert((x as int) * (sw as int) <= 46_340int * 46_340int && (y as int) * (
                sh as int) <= 46_340int * 46_340int) by (nonlinear_arith)
                    requires
                        0 <= x as int <= 46_340,
                        0 <= y as int <= 46_340,
                        1 <= sw as int <= 46_340,
                        1 <= sh as int <= 46_340,
                ;
                let sx = ((x as int) * (sw as int)) / (width as int);
                let sy = ((y as int) * (sh as int)) / (height as int);
                assert(sy * (sw as int) + sx < (sh as int) * (sw as int)) by (nonlinear_arith)
                    requires
                        0 <= sx < sw as int,
                        0 <= sy < sh as int,
                ;
                assert((sw as int) * (sh as int) == (sh as int) * (sw as int)) by (nonlinear_arith);
                assert((sh as int) * (sw as int) <= 46_340int * 46_340int) by (nonlinear_arith)
                    requires
                        1 <= sw as int <= 46_340,
                        1 <= sh as int <= 46_340,
                ;
                assert((y as int) * (width as int) + (x as int) < (height as int) * (width as int))
                    by (nonlinear_arith)
                    requires
                        0 <= x as int,
                        (x as int) < (width as int),
                        0 <= y as int,
                        (y as int) < (height as int),
                ;
                lemma_row_major(y as int, x as int, width as int);
            }
            let sx: usize = (x * sw) / width;
            let sy: usize = (y * sh) / height;
            let b: u32 = src.pixels[sy * sw + sx];
            out.push(b);
            x = x + 1;
        }
        proof {
            assert((y as int) * (width as int) + (width as int) == (y as int + 1) * (width as int))
                by (nonlinear_arith);
        }
        y = y + 1;
    }
    let result = Raster { width, height, pixels: out };
    proof {
        assert((height as int) * (width as int) == (width as int) * (height as int))
            by (nonlinear_arith);
        assert forall|x: int, y2: int| 0 <= x < width && 0 <= y2 < height implies #[trigger] result.pixels@[y2
            * (width as int) + x] == src.pixels@[((y2 * (src.height as int)) / (height as int)) * (
        src.width as int) + (x * (src.width as int)) / (width as int)] by {
            assert(y2 * (width as int) + x < (height as int) * (width as int)) by (nonlinear_arith)
                requires
                    0 <= x,
                    x < width as int,
                    0 <= y2,
                    y2 < height as int,
            ;
            lemma_row_major(y2, x, width as int);
        }
    }
    result
}

/// With no features and a candidate farther than `INV_NUMER` ticks from
/// every location the raster represents, every cell samples the full
/// field value `FIELD_ONE` and every rendered pixel comes out pure green,
/// whatever the base color.
pub proof fn lemma_far_candidate_renders_green(
    features: Seq<Point>,
    cand: Point,
    m: CoordinateMapper,
    cs: int,
    c: u32,
    px: int,
    py: int,
)
    requires
        features.len() == 0,
        m.wf(),
        1 <= cs,
        0 <= px < m.width,
        0 <= py < m.height,
        forall|ax: int, ay: int|
            0 <= ax < m.width && 0 <= ay < m.height ==> dist_sq(
                cand.x as int,
                cand.y as int,
                #[trigger] geo_x_of_px(m, ax),
                #[trigger] geo_y_of_py(m, ay),
            ) >= (INV_NUMER + 1) * (INV_NUMER + 1),
    ensures
        rendered_pixel(features.push(cand), m, cs, BlendMode::InverseDistance, c, px, py)
            == 0x00FF00,
{
    let pts = features.push(cand);
    let cx = px / cs;
    let cy = py / cs;
    lemma_div_pos_is_pos(px, cs);
    lemma_div_pos_is_pos(py, cs);
    lemma_fundamental_div_mod(px, cs);
    lemma_mod_division_less_than_divisor(px, cs);
    lemma_fundamental_div_mod(py, cs);
    lemma_mod_division_less_than_divisor(py, cs);
    assert(0 <= cx * cs <= px && 0 <= cy * cs <= py) by (nonlinear_arith)
        requires
            px == cs * cx + px % cs,
            py == cs * cy + py % cs,
            0 <= px % cs,
            0 <= py % cs,
            cx >= 0,
            cy >= 0,
            cs >= 1,
    ;
    let ax = cx * cs;
    let ay = cy * cs;
    let gx = geo_x_of_px(m, ax);
    let gy = geo_y_of_py(m, ay);
    let d2 = dist_sq(cand.x as int, cand.y as int, gx, gy);
    assert(d2 >= (INV_NUMER + 1) * (INV_NUMER + 1));
    assert(d2 > 0 && (INV_NUMER + 1) * (INV_NUMER + 1) > 0) by (nonlinear_arith)
        requires
            d2 >= (INV_NUMER + 1) * (INV_NUMER + 1),
    ;
    lemma_sqrt_floor_exists(d2 as nat);
    let root = sqrt_floor(d2);
    if root <= INV_NUMER {
        assert((root + 1) * (root + 1) <= (INV_NUMER + 1) * (INV_NUMER + 1)) by (nonlinear_arith)
            requires
                0 <= root,
                root + 1 <= INV_NUMER + 1,
        ;
        assert(false);
    }
    lemma_basic_div(INV_NUMER as int, root);
    assert(pts.drop_last() =~= Seq::<Point>::empty());
    assert(pts.last() == cand);
    assert(inv_sum(Seq::<Point>::empty(), gx, gy) == 0);
    assert(inv_sum(pts, gx, gy) == inv_term(d2));
    assert(inv_term(d2) == 0);
    assert(field_value(pts, gx, gy) == FIELD_ONE);
    assert(!coincides(pts, gx, gy)) by {
        assert forall|i: int|
            0 <= i < pts.len() implies dist_sq(
            #[trigger] pts[i].x as int,
            pts[i].y as int,
            gx,
            gy,
        ) != 0 by {
            assert(pts[i] == cand);
        }
    }
    assert(heat_at(pts, gx, gy) == FIELD_ONE);
    assert(cell_heat(pts, m, cs, cx, cy) == FIELD_ONE);
    lemma_chan_bounds(c);
    let one = FIELD_ONE as int;
    lemma_mul_is_commutative(chan_r(c), one);
    lemma_div_multiples_vanish(chan_r(c), one);
    lemma_mul_is_commutative(255 - chan_g(c), one);
    lemma_div_multiples_vanish(255 - chan_g(c), one);
    lemma_mul_is_commutative(chan_b(c), one);
    lemma_div_multiples_vanish(chan_b(c), one);
    assert(blend_spec(c, one) == pack_rgb(0, 255, 0));
}

} // verus!
