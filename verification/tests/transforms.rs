//! Coordinate transforms, bounding boxes and the integer square root.

use heat_overlay::geom::{BoundingBox, GeoError, Point};
use heat_overlay::mapper::CoordinateMapper;
use heat_overlay::sqrt::isqrt;

/// A box of 800 x 300 geographic units rendered at one unit per pixel:
/// ticks are hundredths of a unit.
fn unit_scale_mapper() -> CoordinateMapper {
    CoordinateMapper::new(0, 0, 80_000, 30_000, 800, 300).unwrap()
}

#[test]
fn bounding_box_accepts_positive_area() {
    let b = BoundingBox::new(-100, -200, 300, 400).unwrap();
    assert_eq!(b.min_x, -100);
    assert_eq!(b.min_y, -200);
    assert_eq!(b.max_x, 300);
    assert_eq!(b.max_y, 400);
}

#[test]
fn bounding_box_rejects_degenerate() {
    assert_eq!(
        BoundingBox::new(0, 0, 0, 300),
        Err(GeoError::DegenerateBoundingBox)
    );
    assert_eq!(
        BoundingBox::new(0, 300, 800, 300),
        Err(GeoError::DegenerateBoundingBox)
    );
    assert_eq!(
        BoundingBox::new(800, 0, 0, 300),
        Err(GeoError::DegenerateBoundingBox)
    );
}

#[test]
fn mapper_construction_fails_fast_on_degenerate_box() {
    assert_eq!(
        CoordinateMapper::new(500, 0, 500, 300, 800, 300),
        Err(GeoError::DegenerateBoundingBox)
    );
}

#[test]
fn pixel_to_geo_center() {
    let m = unit_scale_mapper();
    assert_eq!(m.pixel_to_geo(400, 150), Point { x: 40_000, y: 15_000 });
    assert_eq!(m.pixel_to_geo(0, 0), Point { x: 0, y: 30_000 });
}

#[test]
fn y_flip_top_row_is_max_y_bottom_row_is_min_y() {
    let m = unit_scale_mapper();
    for px in [0i64, 1, 400, 799] {
        assert_eq!(m.pixel_to_geo(px, 0).y, 30_000);
        assert_eq!(m.pixel_to_geo(px, 300).y, 0);
    }
}

#[test]
fn geo_to_pixel_inverts_pixel_to_geo() {
    let m = unit_scale_mapper();
    // The box spans a whole number of ticks per pixel, so the round trip
    // is exact.
    for (px, py) in [(0i64, 0i64), (1, 1), (123, 45), (799, 299)] {
        let g = m.pixel_to_geo(px, py);
        assert_eq!(m.geo_to_pixel(g.x, g.y), (px, py));
    }
}

#[test]
fn geo_to_pixel_never_clamps() {
    let m = unit_scale_mapper();
    // A location left of and above the box maps to negative pixels.
    assert_eq!(m.geo_to_pixel(-100, 30_100), (-1, -1));
    // The right and bottom edges map just off the raster.
    assert_eq!(m.geo_to_pixel(80_000, 0), (800, 300));
}

#[test]
fn pixel_to_geo_accepts_out_of_range_pixels() {
    let m = unit_scale_mapper();
    assert_eq!(m.pixel_to_geo(-1, -1), Point { x: -100, y: 30_100 });
    assert_eq!(m.pixel_to_geo(800, 300), Point { x: 80_000, y: 0 });
}

#[test]
fn isqrt_small_and_large() {
    assert_eq!(isqrt(0), 0);
    assert_eq!(isqrt(1), 1);
    assert_eq!(isqrt(3), 1);
    assert_eq!(isqrt(4), 2);
    assert_eq!(isqrt(99), 9);
    assert_eq!(isqrt(100), 10);
    assert_eq!(isqrt(1_000_000_000_000_000_000), 1_000_000_000);
    assert_eq!(isqrt(u64::MAX), 4_294_967_295);
}

#[test]
fn round_trip_error_is_at_most_one_pixel() {
    // A box only 1000 ticks wide on an 800-pixel raster: the span is not
    // a multiple of the width, so the fixed-point round trip may lose one
    // pixel, but never more.
    let m = CoordinateMapper::new(0, 0, 1_000, 1_000, 800, 300).unwrap();
    for px in 0..800i64 {
        let g = m.pixel_to_geo(px, 0);
        let (px2, _) = m.geo_to_pixel(g.x, g.y);
        assert!(px - 1 <= px2 && px2 <= px);
    }
}
