//! The alternate scoring function: how many features lie strictly within
//! a fixed radius of a candidate point.

use vstd::prelude::*;

use crate::geom::{dist_sq, dist_sq_exec, point_in_bounds, Point, GEO_SCALE};
use crate::field::FeatureSet;

verus! {

/// The default probe radius: 30 geographic units, in ticks.
pub const DEFAULT_RADIUS: i64 = 30 * GEO_SCALE;

/// Largest radius `score` accepts, in ticks; keeps the squared radius in
/// `i64` range.
pub const MAX_RADIUS: i64 = 2_000_000_000;

/// Number of points of `pts` whose squared distance to `(cx, cy)` is
/// strictly below `radius * radius`.
pub open spec fn count_within(pts: Seq<Point>, cx: int, cy: int, radius: int) -> int
    decreases pts.len(),
{
    if pts.len() == 0 {
        0
    } else {
        count_within(pts.drop_last(), cx, cy, radius) + if dist_sq(
            pts.last().x as int,
            pts.last().y as int,
            cx,
            cy,
        ) < radius * radius {
            1int
        } else {
            0int
        }
    }
}

/// Counts the features whose Euclidean distance to the candidate is
/// strictly less than `radius`. A feature at exactly `radius` is not
/// counted.
pub fn score(features: &FeatureSet, candidate: Point, radius: i64) -> (r: usize)
    requires
        features.wf(),
        point_in_bounds(candidate),
        0 <= radius <= MAX_RADIUS,
    ensures
        r as int == count_within(
            features.points(),
            candidate.x as int,
            candidate.y as int,
            radius as int,
        ),
        r <= features.points().len(),
{
    let n = features.len();
    proof {
        assert((radius as int) * (radius as int) <= 4_000_000_000_000_000_000int)
            by (nonlinear_arith)
            requires
                0 <= radius as int <= 2_000_000_000,
        ;
    }
    let r2: i64 = radius * radius;
    let mut count: usize = 0;
    let mut i: usize = 0;
    while i < n
        invariant
            features.wf(),
            point_in_bounds(candidate),
            n == features.points().len(),
            0 <= i <= n,
            r2 as int == (radius as int) * (radius as int),
            count as int == count_within(
                features.points().take(i as int),
                candidate.x as int,
                candidate.y as int,
                radius as int,
            ),
            count <= i,
        decreases n - i,
    {
        let p = features.get(i);
        let d2 = dist_sq_exec(p, candidate);
        proof {
            let prefix = features.points().take(i as int);
            let next = features.points().take(i + 1);
            assert(next.drop_last() =~= prefix);
            assert(next.last() == features.points()[i as int]);
        }
        if d2 < r2 {
            count = count + 1;
        }
        i = i + 1;
    }
    proof {
        assert(features.points().take(n as int) =~= features.points());
    }
    count
}

} // verus!
