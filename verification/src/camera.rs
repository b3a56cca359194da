//! The pinhole camera: a fixed eye point and a viewport rectangle one
//! focal length away.  Rays go from the eye through image-plane
//! coordinates `(u, v)` in `[0, 1]²` (jitter may push them slightly
//! past 1).

use crate::fixed::{lemma_tdiv_exact, SCALE};
use crate::hittable::ray_wf;
use crate::ray::Ray;
use crate::vec3::{lemma_square_fx_nonneg, Point, Vec3};
use vstd::prelude::*;

verus! {

/// Largest admissible camera position component: 2^22, or 64 whole
/// units.
pub const CAM_B: i64 = 4194304;

/// Largest admissible viewport edge component: 2^20, or 16 whole units.
pub const HV_B: i64 = 1048576;

#[derive(Clone, Copy, PartialEq, Eq, Structural, Debug)]
pub struct Camera {
    pub origin: Point,
    pub lower_left_corner: Point,
    pub horizontal: Vec3,
    pub vertical: Vec3,
}

impl Camera {
    /// A camera whose rays the solver can handle: bounded components,
    /// an axis-aligned viewport, and a viewport plane strictly in front
    /// of the eye, so that no generated ray direction is zero.
    pub open spec fn wf(self) -> bool {
        &&& self.origin.bounded(CAM_B as int)
        &&& self.lower_left_corner.bounded(CAM_B as int)
        &&& self.horizontal.bounded(HV_B as int)
        &&& self.vertical.bounded(HV_B as int)
        &&& self.horizontal.z == 0
        &&& self.vertical.z == 0
        &&& self.lower_left_corner.z - self.origin.z <= -(SCALE as int)
    }

    /// The default camera: eye at the origin, a 16:9 viewport of height
    /// 2 one unit in front of it.
    pub fn new() -> (c: Camera)
        ensures
            c.wf(),
            c.origin == (Vec3 { x: 0, y: 0, z: 0 }),
            c.horizontal == (Vec3 { x: 233016, y: 0, z: 0 }),
            c.vertical == (Vec3 { x: 0, y: 131072, z: 0 }),
            c.lower_left_corner == (Vec3 { x: -116508i64, y: -65536i64, z: -65536i64 }),
    {
        let origin = Vec3::new(0, 0, 0);
        let aspect_ratio = crate::fixed::fx_div(16 * SCALE, 9 * SCALE);
        let viewport_height = 2 * SCALE;
        let viewport_width = crate::fixed::fx_mul(aspect_ratio, viewport_height);
        let focal_length = SCALE;

        let horizontal = Vec3::new(viewport_width, 0, 0);
        let vertical = Vec3::new(0, viewport_height, 0);
        let lower_left_corner = origin.sub(horizontal.div(2 * SCALE)).sub(
            vertical.div(2 * SCALE),
        ).sub(Vec3::new(0, 0, focal_length));

        Camera { origin, lower_left_corner, horizontal, vertical }
    }

    /// Exact value of the generated ray: from the eye toward the
    /// viewport point `u` across and `v` up.
    pub open spec fn get_ray_val(self, u: i64, v: i64) -> Ray {
        Ray {
            origin: self.origin,
            dir: self.lower_left_corner.add_val(self.horizontal.mul_val(u)).add_val(
                self.vertical.mul_val(v),
            ).sub_val(self.origin),
        }
    }

    /// The ray from the eye through image-plane coordinates `(u, v)`.
    pub fn get_ray(&self, u: i64, v: i64) -> (r: Ray)
        requires
            self.wf(),
            0 <= u <= 2 * SCALE,
            0 <= v <= 2 * SCALE,
        ensures
            r == self.get_ray_val(u, v),
            ray_wf(r),
            r.dir.ls_val() > 0,
    {
        proof {
            lemma_get_ray_fits(*self, u, v);
        }
        let dir = self.lower_left_corner.add(self.horizontal.mul(u)).add(
            self.vertical.mul(v),
        ).sub(self.origin);
        let r = Ray { origin: self.origin, dir };
        proof {
            lemma_get_ray_dir(*self, u, v);
        }
        r
    }
}

/// In-range conditions for assembling a camera ray.
proof fn lemma_get_ray_fits(c: Camera, u: i64, v: i64)
    requires
        c.wf(),
        0 <= u <= 2 * SCALE,
        0 <= v <= 2 * SCALE,
    ensures
        c.horizontal.mul_fits(u),
        c.horizontal.mul_val(u).bounded(2 * (HV_B as int)),
        c.vertical.mul_fits(v),
        c.vertical.mul_val(v).bounded(2 * (HV_B as int)),
        c.lower_left_corner.add_fits(c.horizontal.mul_val(u)),
        c.lower_left_corner.add_val(c.horizontal.mul_val(u)).add_fits(c.vertical.mul_val(v)),
        c.lower_left_corner.add_val(c.horizontal.mul_val(u)).add_val(
            c.vertical.mul_val(v),
        ).sub_fits(c.origin),
{
    lemma_mul_fits_scaled(c.horizontal, u);
    lemma_mul_fits_scaled(c.vertical, v);
}

/// Scaling a viewport edge by a coordinate in [0, 2] at most doubles
/// its bound.
proof fn lemma_mul_fits_scaled(w: Vec3, k: i64)
    requires
        w.bounded(HV_B as int),
        0 <= k <= 2 * SCALE,
    ensures
        w.mul_fits(k),
        w.mul_val(k).bounded(2 * (HV_B as int)),
{
    crate::fixed::lemma_mul_bound(w.x as int, k as int, HV_B as int, 2 * (SCALE as int));
    crate::fixed::lemma_mul_bound(w.y as int, k as int, HV_B as int, 2 * (SCALE as int));
    crate::fixed::lemma_mul_bound(w.z as int, k as int, HV_B as int, 2 * (SCALE as int));
    crate::fixed::lemma_tdiv_bound(
        w.x as int * (k as int),
        SCALE as int,
        (HV_B as int) * (2 * (SCALE as int)),
    );
    crate::fixed::lemma_tdiv_bound(
        w.y as int * (k as int),
        SCALE as int,
        (HV_B as int) * (2 * (SCALE as int)),
    );
    crate::fixed::lemma_tdiv_bound(
        w.z as int * (k as int),
        SCALE as int,
        (HV_B as int) * (2 * (SCALE as int)),
    );
    assert(crate::fixed::tdiv((HV_B as int) * (2 * (SCALE as int)), SCALE as int) == 2 * (
    HV_B as int));
}

/// A generated ray is well formed and its direction cannot vanish: the
/// z component stays at the eye-to-viewport offset.
proof fn lemma_get_ray_dir(c: Camera, u: i64, v: i64)
    requires
        c.wf(),
        0 <= u <= 2 * SCALE,
        0 <= v <= 2 * SCALE,
    ensures
        ray_wf(c.get_ray_val(u, v)),
        c.get_ray_val(u, v).dir.z as int == c.lower_left_corner.z - c.origin.z,
        c.get_ray_val(u, v).dir.ls_val() > 0,
{
    lemma_get_ray_fits(c, u, v);
    assert(c.horizontal.z as int * (u as int) == 0) by (nonlinear_arith)
        requires
            c.horizontal.z == 0,
    ;
    assert(c.vertical.z as int * (v as int) == 0) by (nonlinear_arith)
        requires
            c.vertical.z == 0,
    ;
    let dir = c.get_ray_val(u, v).dir;
    assert(dir.z as int == c.lower_left_corner.z - c.origin.z);
    lemma_square_fx_nonneg(dir.x as int);
    lemma_square_fx_nonneg(dir.y as int);
    let z = dir.z as int;
    assert(z * z >= (SCALE as int) * (SCALE as int)) by (nonlinear_arith)
        requires
            z <= -(SCALE as int),
    ;
    lemma_tdiv_exact(SCALE as int, SCALE as int);
    crate::fixed::lemma_tdiv_mono((SCALE as int) * (SCALE as int), z * z, SCALE as int);
}

} // verus!
