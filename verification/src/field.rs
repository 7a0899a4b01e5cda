//! The influence field: a scalar heat value over geographic space,
//! aggregating inverse-distance contributions from a feature set and a
//! transient candidate point.
//!
//! The field at a location is `1 - sum(1 / d_i)` over all points, where
//! `d_i` is the Euclidean distance in geographic units. In fixed point:
//! a field value of 1 is `FIELD_ONE`, a distance of one geographic unit
//! is `GEO_SCALE` ticks, and each contribution is
//! `INV_NUMER / sqrt_floor(d_i^2)`. The sum grows without bound as a
//! point nears the location, so the value can go far below zero; a
//! location that coincides exactly with a point has no finite value and
//! is reported as `Singular`, leaving the blend policy to the caller.

use vstd::arithmetic::div_mod::{
    lemma_div_is_ordered_by_denominator,
    lemma_div_nonincreasing,
    lemma_div_pos_is_pos,
};
use vstd::prelude::*;

use crate::geom::{dist_sq, dist_sq_exec, point_in_bounds, Point, GEO_SCALE};
use crate::sqrt::{isqrt, lemma_sqrt_floor_exists, lemma_sqrt_floor_monotonic, sqrt_floor};

verus! {

/// Fixed-point representation of the field value 1.
pub const FIELD_ONE: i64 = 1_000;

/// Numerator of one inverse-distance contribution: with the distance in
/// ticks, `INV_NUMER / d` is `(1 / d_geo) * FIELD_ONE`.
pub const INV_NUMER: i64 = FIELD_ONE * GEO_SCALE;

/// Most features a set may hold.
pub const MAX_FEATURES: usize = 1_000_000_000;

/// The fixed, immutable collection of feature locations.
pub struct FeatureSet {
    pub pts: Vec<Point>,
}

/// One sampled field value: either a finite fixed-point scalar, or the
/// singular case of a location coinciding exactly with a point.
#[derive(Clone, Copy, PartialEq, Eq, Structural, Debug)]
pub enum FieldValue {
    Singular,
    Value(i64),
}

impl FeatureSet {
    pub open spec fn points(self) -> Seq<Point> {
        self.pts@
    }

    pub open spec fn wf(self) -> bool {
        &&& self.pts@.len() <= MAX_FEATURES
        &&& forall|i: int| 0 <= i < self.pts@.len() ==> point_in_bounds(#[trigger] self.pts@[i])
    }

    /// An empty feature set.
    pub fn new() -> (r: FeatureSet)
        ensures
            r.wf(),
            r.points() == Seq::<Point>::empty(),
    {
        let r = FeatureSet { pts: Vec::new() };
        proof {
            assert(r.points() =~= Seq::<Point>::empty());
        }
        r
    }

    pub fn len(&self) -> (r: usize)
        ensures
            r == self.points().len(),
    {
        self.pts.len()
    }

    pub fn get(&self, i: usize) -> (r: Point)
        requires
            i < self.points().len(),
        ensures
            r == self.points()[i as int],
    {
        self.pts[i]
    }

    /// Appends a feature; the edit-and-commit mode of the host applies a
    /// clicked candidate here.
    pub fn push(&mut self, p: Point)
        requires
            old(self).wf(),
            old(self).points().len() < MAX_FEATURES,
            point_in_bounds(p),
        ensures
            final(self).wf(),
            final(self).points() == old(self).points().push(p),
    {
        self.pts.push(p);
    }
}

/// Some point of `pts` lies exactly on `(lx, ly)`.
pub open spec fn coincides(pts: Seq<Point>, lx: int, ly: int) -> bool {
    exists|i: int|
        0 <= i < pts.len() && dist_sq(#[trigger] pts[i].x as int, pts[i].y as int, lx, ly) == 0
}

/// Fixed-point inverse-distance contribution of one point at squared
/// distance `d2` ticks.
pub open spec fn inv_term(d2: int) -> int {
    if d2 <= 0 {
        0
    } else {
        INV_NUMER as int / sqrt_floor(d2)
    }
}

/// Sum of the inverse-distance contributions of `pts` at `(lx, ly)`.
pub open spec fn inv_sum(pts: Seq<Point>, lx: int, ly: int) -> int
    decreases pts.len(),
{
    if pts.len() == 0 {
        0
    } else {
        inv_sum(pts.drop_last(), lx, ly) + inv_term(
            dist_sq(pts.last().x as int, pts.last().y as int, lx, ly),
        )
    }
}

/// The field value at `(lx, ly)` induced by `pts`, in fixed point:
/// 1 minus the inverse-distance sum. Meaningful only where no point of
/// `pts` coincides with the location.
pub open spec fn field_value(pts: Seq<Point>, lx: int, ly: int) -> int {
    FIELD_ONE - inv_sum(pts, lx, ly)
}

/// One contribution lies between 0 and `INV_NUMER`.
pub proof fn lemma_inv_term_bounds(d2: int)
    ensures
        0 <= inv_term(d2) <= INV_NUMER,
{
    if d2 >= 1 {
        lemma_sqrt_floor_exists(d2 as nat);
        let r = sqrt_floor(d2);
        if r == 0 {
            assert((d2 as int) < 1) by (nonlinear_arith)
                requires
                    d2 < (0int + 1) * (0int + 1),
            ;
        }
        lemma_div_pos_is_pos(INV_NUMER as int, r);
        lemma_div_nonincreasing(INV_NUMER as int, r);
    }
}

/// The sum over `pts` lies between 0 and `pts.len() * INV_NUMER`.
pub proof fn lemma_inv_sum_bounds(pts: Seq<Point>, lx: int, ly: int)
    ensures
        0 <= inv_sum(pts, lx, ly) <= pts.len() * INV_NUMER,
    decreases pts.len(),
{
    if pts.len() == 0 {
    } else {
        lemma_inv_sum_bounds(pts.drop_last(), lx, ly);
        lemma_inv_term_bounds(dist_sq(pts.last().x as int, pts.last().y as int, lx, ly));
        assert((pts.len() - 1) * INV_NUMER + INV_NUMER == pts.len() * INV_NUMER)
            by (nonlinear_arith);
    }
}

/// Evaluates the field induced by the features and the candidate at a
/// location. Returns `Singular` exactly when the location coincides with
/// one of the points; otherwise the finite fixed-point field value.
pub fn evaluate(features: &FeatureSet, candidate: Point, loc: Point) -> (r: FieldValue)
    requires
        features.wf(),
        point_in_bounds(candidate),
        point_in_bounds(loc),
    ensures
        r is Singular <==> coincides(
            features.points().push(candidate),
            loc.x as int,
            loc.y as int,
        ),
        r matches FieldValue::Value(v) ==> v as int == field_value(
            features.points().push(candidate),
            loc.x as int,
            loc.y as int,
        ) && v <= FIELD_ONE,
{
    let ghost pts = features.points().push(candidate);
    let n = features.len();
    let mut sum: i64 = 0;
    let mut i: usize = 0;
    while i < n
        invariant
            features.wf(),
            point_in_bounds(loc),
            pts == features.points().push(candidate),
            n == features.points().len(),
            0 <= i <= n,
            sum as int == inv_sum(features.points().take(i as int), loc.x as int, loc.y as int),
            0 <= sum as int <= (i as int) * (INV_NUMER as int),
            forall|j: int|
                0 <= j < i ==> dist_sq(
                    #[trigger] features.points()[j].x as int,
                    features.points()[j].y as int,
                    loc.x as int,
                    loc.y as int,
                ) != 0,
        decreases n - i,
    {
        let p = features.get(i);
        let d2 = dist_sq_exec(p, loc);
        if d2 == 0 {
            proof {
                assert(pts[i as int] == p);
                assert(coincides(pts, loc.x as int, loc.y as int));
            }
            return FieldValue::Singular;
        }
        let root = isqrt(d2 as u64);
        let inv: u64 = (INV_NUMER as u64) / root;
        proof {
            let d2i = d2 as int;
            lemma_inv_term_bounds(d2i);
            assert(inv as int == inv_term(d2i));
            let prefix = features.points().take(i as int);
            let next = features.points().take(i + 1);
            assert(next.drop_last() =~= prefix);
            assert(next.last() == p);
            assert((i as int) * (INV_NUMER as int) + INV_NUMER == (i + 1) * (INV_NUMER as int))
                by (nonlinear_arith);
        }
        sum = sum + (inv as i64);
        i = i + 1;
    }
    proof {
        assert(features.points().take(n as int) =~= features.points());
    }
    let d2c = dist_sq_exec(candidate, loc);
    if d2c == 0 {
        proof {
            assert(pts[n as int] == candidate);
            assert(coincides(pts, loc.x as int, loc.y as int));
        }
        return FieldValue::Singular;
    }
    let root = isqrt(d2c as u64);
    let invc: u64 = (INV_NUMER as u64) / root;
    proof {
        lemma_inv_term_bounds(d2c as int);
        assert(invc as int == inv_term(d2c as int));
        assert(pts.drop_last() =~= features.points());
        assert(pts.last() == candidate);
        assert(!coincides(pts, loc.x as int, loc.y as int)) by {
            assert forall|j: int|
                0 <= j < pts.len() implies dist_sq(
                #[trigger] pts[j].x as int,
                pts[j].y as int,
                loc.x as int,
                loc.y as int,
            ) != 0 by {
                if j < n {
                    assert(pts[j] == features.points()[j]);
                } else {
                    assert(pts[j] == candidate);
                }
            }
        }
        assert((n as int) * (INV_NUMER as int) <= 1_000_000_000int * 100_000int)
            by (nonlinear_arith)
            requires
                0 <= n as int <= 1_000_000_000,
        ;
        lemma_inv_sum_bounds(pts, loc.x as int, loc.y as int);
    }
    FieldValue::Value(FIELD_ONE - (sum + (invc as i64)))
}

/// Influence monotonicity: for the field induced by a single point, the
/// value never decreases as the location moves farther from that point.
pub proof fn lemma_influence_monotone(p: Point, l1: Point, l2: Point)
    requires
        0 < dist_sq(p.x as int, p.y as int, l1.x as int, l1.y as int),
        dist_sq(p.x as int, p.y as int, l1.x as int, l1.y as int) <= dist_sq(
            p.x as int,
            p.y as int,
            l2.x as int,
            l2.y as int,
        ),
    ensures
        field_value(seq![p], l1.x as int, l1.y as int) <= field_value(
            seq![p],
            l2.x as int,
            l2.y as int,
        ),
        !coincides(seq![p], l1.x as int, l1.y as int),
        !coincides(seq![p], l2.x as int, l2.y as int),
{
    let d1 = dist_sq(p.x as int, p.y as int, l1.x as int, l1.y as int);
    let d2 = dist_sq(p.x as int, p.y as int, l2.x as int, l2.y as int);
    let s = seq![p];
    assert(s.drop_last() =~= Seq::<Point>::empty());
    assert(s.last() == p);
    assert(inv_sum(Seq::<Point>::empty(), l1.x as int, l1.y as int) == 0);
    assert(inv_sum(Seq::<Point>::empty(), l2.x as int, l2.y as int) == 0);
    assert(inv_sum(s, l1.x as int, l1.y as int) == inv_term(
        dist_sq(p.x as int, p.y as int, l1.x as int, l1.y as int),
    ));
    assert(inv_sum(s, l2.x as int, l2.y as int) == inv_term(
        dist_sq(p.x as int, p.y as int, l2.x as int, l2.y as int),
    ));
    lemma_sqrt_floor_exists(d1 as nat);
    lemma_sqrt_floor_exists(d2 as nat);
    lemma_sqrt_floor_monotonic(d1, d2);
    let r1 = sqrt_floor(d1);
    let r2 = sqrt_floor(d2);
    if r1 == 0 {
        assert((d1 as int) < 1) by (nonlinear_arith)
            requires
                d1 < (0int + 1) * (0int + 1),
        ;
    }
    lemma_div_is_ordered_by_denominator(INV_NUMER as int, r1, r2);
}

} // verus!
