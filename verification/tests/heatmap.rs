//! The influence field, the proximity scorer, the rasterizer and the
//! blitter, on concrete scenarios.

use heat_overlay::field::{evaluate, FeatureSet, FieldValue, FIELD_ONE};
use heat_overlay::geom::Point;
use heat_overlay::mapper::CoordinateMapper;
use heat_overlay::proximity::{score, DEFAULT_RADIUS};
use heat_overlay::raster::{blend, blit, render, tint_hot, BlendMode, Raster};

/// A box of 800 x 300 geographic units rendered at one unit per pixel:
/// ticks are hundredths of a unit.
fn unit_scale_mapper() -> CoordinateMapper {
    CoordinateMapper::new(0, 0, 80_000, 30_000, 800, 300).unwrap()
}

fn features_of(points: &[Point]) -> FeatureSet {
    let mut fs = FeatureSet::new();
    for p in points {
        fs.push(*p);
    }
    fs
}

#[test]
fn feature_set_push_and_get() {
    let mut fs = FeatureSet::new();
    assert_eq!(fs.len(), 0);
    fs.push(Point { x: 7, y: -9 });
    fs.push(Point { x: 0, y: 4 });
    assert_eq!(fs.len(), 2);
    assert_eq!(fs.get(0), Point { x: 7, y: -9 });
    assert_eq!(fs.get(1), Point { x: 0, y: 4 });
}

#[test]
fn proximity_radius_is_strict() {
    // The default radius is 30 geographic units; a feature at distance
    // 30.01 is not counted, one at 29.99 is, one at exactly 30 is not.
    assert_eq!(DEFAULT_RADIUS, 3_000);
    let candidate = Point { x: 0, y: 0 };
    let just_outside = features_of(&[Point { x: 3_001, y: 0 }]);
    assert_eq!(score(&just_outside, candidate, DEFAULT_RADIUS), 0);
    let just_inside = features_of(&[Point { x: 2_999, y: 0 }]);
    assert_eq!(score(&just_inside, candidate, DEFAULT_RADIUS), 1);
    let on_boundary = features_of(&[Point { x: 3_000, y: 0 }]);
    assert_eq!(score(&on_boundary, candidate, DEFAULT_RADIUS), 0);
}

#[test]
fn proximity_counts_all_near_features() {
    let candidate = Point { x: 1_000, y: 1_000 };
    let fs = features_of(&[
        Point { x: 1_000, y: 1_000 },
        Point { x: 1_000, y: 3_999 },
        Point { x: 1_000, y: 4_000 },
        Point { x: -1_995, y: 1_000 },
        Point { x: 90_000, y: 90_000 },
    ]);
    assert_eq!(score(&fs, candidate, DEFAULT_RADIUS), 3);
}

#[test]
fn field_value_at_one_unit_distance_is_zero() {
    // At a distance of one geographic unit the single contribution is
    // exactly 1, so the field value 1 - 1/d comes out 0.
    let fs = FeatureSet::new();
    let candidate = Point { x: 100, y: 0 };
    let loc = Point { x: 0, y: 0 };
    assert_eq!(evaluate(&fs, candidate, loc), FieldValue::Value(0));
}

#[test]
fn field_value_halves_at_twice_the_distance() {
    let fs = FeatureSet::new();
    let candidate = Point { x: 200, y: 0 };
    let loc = Point { x: 0, y: 0 };
    assert_eq!(evaluate(&fs, candidate, loc), FieldValue::Value(500));
}

#[test]
fn field_value_is_monotone_in_distance() {
    let fs = FeatureSet::new();
    let candidate = Point { x: 0, y: 0 };
    let mut last = i64::MIN;
    for d in [50i64, 100, 150, 200, 400, 1_000, 10_000, 1_000_000] {
        match evaluate(&fs, candidate, Point { x: d, y: 0 }) {
            FieldValue::Value(v) => {
                assert!(v >= last);
                last = v;
            }
            FieldValue::Singular => panic!("distance {d} is not singular"),
        }
    }
}

#[test]
fn field_sums_contributions_of_all_points() {
    // One feature at distance 1 unit and a candidate at distance 2 units:
    // 1000 - (1000 + 500).
    let fs = features_of(&[Point { x: 100, y: 0 }]);
    let candidate = Point { x: -200, y: 0 };
    let loc = Point { x: 0, y: 0 };
    assert_eq!(evaluate(&fs, candidate, loc), FieldValue::Value(-500));
}

#[test]
fn field_is_singular_on_a_feature() {
    let fs = features_of(&[Point { x: 40_000, y: 15_000 }]);
    let far_candidate = Point { x: 0, y: 0 };
    let loc = Point { x: 40_000, y: 15_000 };
    assert_eq!(evaluate(&fs, far_candidate, loc), FieldValue::Singular);
}

#[test]
fn field_is_singular_on_the_candidate() {
    let fs = FeatureSet::new();
    let candidate = Point { x: -7, y: 12 };
    assert_eq!(evaluate(&fs, candidate, candidate), FieldValue::Singular);
}

#[test]
fn blend_extremes_and_midpoint() {
    // v = 0 keeps the color; v = FIELD_ONE lands on pure green.
    assert_eq!(blend(0xFFFFFF, 0), 0xFFFFFF);
    assert_eq!(blend(0x123456, 0), 0x123456);
    assert_eq!(blend(0xFFFFFF, FIELD_ONE), 0x00FF00);
    assert_eq!(blend(0x000000, FIELD_ONE), 0x00FF00);
    // v = 1/2 moves every channel half way (rounded down).
    assert_eq!(blend(0x808080, 500), 0x40BF40);
}

#[test]
fn new_filled_covers_the_raster() {
    let r = Raster::new_filled(17, 5, 0xABCDEF);
    assert_eq!(r.width, 17);
    assert_eq!(r.height, 5);
    assert_eq!(r.pixels.len(), 85);
    assert!(r.pixels.iter().all(|&c| c == 0xABCDEF));
}

#[test]
fn blit_nearest_neighbor_upscale() {
    let src = Raster {
        width: 2,
        height: 2,
        pixels: vec![1, 2, 3, 4],
    };
    let out = blit(&src, 4, 4);
    assert_eq!(out.width, 4);
    assert_eq!(out.height, 4);
    assert_eq!(
        out.pixels,
        vec![1, 1, 2, 2, 1, 1, 2, 2, 3, 3, 4, 4, 3, 3, 4, 4]
    );
}

#[test]
fn blit_accepts_any_aspect_ratio() {
    let src = Raster {
        width: 2,
        height: 1,
        pixels: vec![10, 20],
    };
    let out = blit(&src, 3, 2);
    assert_eq!(out.pixels, vec![10, 10, 20, 10, 10, 20]);
    let single = blit(&src, 1, 1);
    assert_eq!(single.pixels, vec![10]);
}

#[test]
fn render_with_empty_features_and_far_candidate_is_all_green() {
    // Every cell samples the full field value, so the whole raster turns
    // pure green, and with 800 = 88 * 9 + 8 and 300 = 33 * 9 + 3 the grid
    // only covers it if the clipped edge cells are painted too.
    let m = unit_scale_mapper();
    let fs = FeatureSet::new();
    let candidate = Point {
        x: -10_000_000,
        y: -10_000_000,
    };
    let base = Raster::new_filled(800, 300, 0xFFFFFF);
    let out = render(&fs, candidate, &base, &m, 9, BlendMode::InverseDistance);
    assert_eq!(out.width, 800);
    assert_eq!(out.height, 300);
    assert_eq!(out.pixels.len(), 240_000);
    assert!(out.pixels.iter().all(|&c| c == 0x00FF00));
}

#[test]
fn render_coincident_candidate_has_defined_output() {
    // The bounding box covers 800 x 300 units at one unit per pixel, one
    // feature sits at (400, 150) and the candidate coincides with it: the
    // singular sample must produce a defined raster, not a crash.
    let m = unit_scale_mapper();
    let fs = features_of(&[Point { x: 40_000, y: 15_000 }]);
    let candidate = Point { x: 40_000, y: 15_000 };
    let base = Raster::new_filled(800, 300, 0xFFFFFF);
    let out = render(&fs, candidate, &base, &m, 9, BlendMode::InverseDistance);
    assert_eq!(out.pixels.len(), 240_000);
    assert!(out.pixels.iter().all(|&c| c <= 0xFFFFFF));
}

#[test]
fn render_singular_cell_keeps_base_color() {
    // With one-pixel cells the cell anchored at pixel (400, 150) samples
    // exactly the feature location: singular, blended as 0, so the base
    // color stays. A far corner is nearly untouched by the two points and
    // blends almost fully toward green.
    let m = unit_scale_mapper();
    let fs = features_of(&[Point { x: 40_000, y: 15_000 }]);
    let candidate = Point { x: 40_000, y: 15_000 };
    let base = Raster::new_filled(800, 300, 0xFFFFFF);
    let out = render(&fs, candidate, &base, &m, 1, BlendMode::InverseDistance);
    assert_eq!(out.pixels[150 * 800 + 400], 0xFFFFFF);
    // At (0, 0) the distance is isqrt(40000^2 + 15000^2) = 42720 ticks,
    // each point contributes 100000 / 42720 = 2, and white blends to
    // 0x02FF02.
    assert_eq!(out.pixels[0], 0x02FF02);
}

#[test]
fn tint_doubles_red_and_halves_green_and_blue() {
    assert_eq!(tint_hot(0xFFFFFF), 0xFF7F7F);
    assert_eq!(tint_hot(0x000000), 0x000000);
    assert_eq!(tint_hot(0x405060), 0x802830);
    // Red saturates at 255 instead of wrapping.
    assert_eq!(tint_hot(0xFF0000), 0xFF0000);
}

#[test]
fn render_proximity_threshold_tints_only_near_cells() {
    // Cells whose anchor lies strictly within 30 units of a point turn
    // red; every other pixel keeps its base color.
    let m = unit_scale_mapper();
    let fs = features_of(&[Point { x: 40_000, y: 15_000 }]);
    let candidate = Point { x: 0, y: 30_000 };
    let base = Raster::new_filled(800, 300, 0xFFFFFF);
    let out = render(&fs, candidate, &base, &m, 9, BlendMode::ProximityThreshold(3_000));
    // Pixel (400, 150) sits in the cell anchored at (396, 144), whose
    // location is about 7.2 units from the feature.
    assert_eq!(out.pixels[150 * 800 + 400], 0xFF7F7F);
    // The top-left cell's anchor coincides with the candidate.
    assert_eq!(out.pixels[0], 0xFF7F7F);
    // A cell far from both points stays untouched.
    assert_eq!(out.pixels[150 * 800 + 200], 0xFFFFFF);
}

#[test]
fn render_proximity_threshold_with_no_near_point_keeps_base() {
    let m = unit_scale_mapper();
    let fs = FeatureSet::new();
    let candidate = Point {
        x: -10_000_000,
        y: -10_000_000,
    };
    let base = Raster::new_filled(800, 300, 0x123456);
    let out = render(&fs, candidate, &base, &m, 9, BlendMode::ProximityThreshold(3_000));
    assert!(out.pixels.iter().all(|&c| c == 0x123456));
}
