//! Rays: an origin and a direction, evaluated at a fixed-point
//! parameter.  `point_at_num` is the unrounded mathematical model the
//! linearity law is stated against; the executable evaluation stays
//! within one fixed-point unit of it per component.

use crate::fixed::{lemma_tdiv_fundamental, SCALE};
use crate::vec3::Vec3;
use vstd::prelude::*;

verus! {

#[derive(Clone, Copy, PartialEq, Eq, Structural, Debug)]
pub struct Ray {
    pub origin: Vec3,
    pub dir: Vec3,
}

impl Ray {
    /// Exact value of the evaluated point, component rounding included.
    pub open spec fn point_at_val(self, t: i64) -> Vec3 {
        self.origin.add_val(self.dir.mul_val(t))
    }

    pub open spec fn point_at_fits(self, t: i64) -> bool {
        self.dir.mul_fits(t) && self.origin.add_fits(self.dir.mul_val(t))
    }

    /// Unrounded model of the evaluated point: every component carries an
    /// extra factor of `SCALE`, so no division rounds anything away.
    pub open spec fn point_at_num(self, t: int) -> (int, int, int) {
        (
            self.origin.x * (SCALE as int) + t * self.dir.x,
            self.origin.y * (SCALE as int) + t * self.dir.y,
            self.origin.z * (SCALE as int) + t * self.dir.z,
        )
    }

    /// The point on the ray at parameter `t`: origin plus `t` times the
    /// direction.
    pub fn point_at(&self, t: i64) -> (p: Vec3)
        requires
            self.point_at_fits(t),
        ensures
            p == self.point_at_val(t),
    {
        self.origin.add(self.dir.mul(t))
    }
}

/// At parameter zero a ray evaluates to its origin exactly.
pub proof fn lemma_point_at_zero(r: Ray)
    ensures
        r.point_at_val(0) == r.origin,
{
    assert(r.dir.x as int * 0 == 0) by (nonlinear_arith);
    assert(r.dir.y as int * 0 == 0) by (nonlinear_arith);
    assert(r.dir.z as int * 0 == 0) by (nonlinear_arith);
}

/// In the unrounded model the displacement from the origin is exactly
/// linear in the parameter: stepping from `t1` to `t1 + t2` moves by
/// `t2` times the direction, whatever `t1` was.
pub proof fn lemma_point_at_linear(r: Ray, t1: int, t2: int)
    ensures
        r.point_at_num(t1 + t2).0 - r.point_at_num(t1).0 == t2 * r.dir.x,
        r.point_at_num(t1 + t2).1 - r.point_at_num(t1).1 == t2 * r.dir.y,
        r.point_at_num(t1 + t2).2 - r.point_at_num(t1).2 == t2 * r.dir.z,
{
    assert((t1 + t2) * (r.dir.x as int) - t1 * (r.dir.x as int) == t2 * (r.dir.x as int))
        by (nonlinear_arith);
    assert((t1 + t2) * (r.dir.y as int) - t1 * (r.dir.y as int) == t2 * (r.dir.y as int))
        by (nonlinear_arith);
    assert((t1 + t2) * (r.dir.z as int) - t1 * (r.dir.z as int) == t2 * (r.dir.z as int))
        by (nonlinear_arith);
}

/// The computed point tracks the unrounded model to within one
/// fixed-point unit per component.
pub proof fn lemma_point_at_accuracy(r: Ray, t: i64)
    requires
        r.point_at_fits(t),
    ensures
        ({
            let p = r.point_at_val(t);
            let m = r.point_at_num(t as int);
            &&& -(SCALE as int) < (SCALE as int) * (p.x as int) - m.0 < SCALE as int
            &&& -(SCALE as int) < (SCALE as int) * (p.y as int) - m.1 < SCALE as int
            &&& -(SCALE as int) < (SCALE as int) * (p.z as int) - m.2 < SCALE as int
        }),
{
    lemma_tdiv_fundamental(t as int * (r.dir.x as int), SCALE as int);
    lemma_tdiv_fundamental(t as int * (r.dir.y as int), SCALE as int);
    lemma_tdiv_fundamental(t as int * (r.dir.z as int), SCALE as int);
    assert(r.dir.x as int * (t as int) == t as int * (r.dir.x as int)) by (nonlinear_arith);
    assert(r.dir.y as int * (t as int) == t as int * (r.dir.y as int)) by (nonlinear_arith);
    assert(r.dir.z as int * (t as int) == t as int * (r.dir.z as int)) by (nonlinear_arith);
}

} // verus!
