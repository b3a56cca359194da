//! The hit-testing protocol: spheres and scenes report the nearest ray
//! intersection inside a closed parameter window.  The quadratic solver
//! is specified exactly, step by step, in fixed-point arithmetic, and
//! the scene search is specified by a fold that shrinks the window to
//! the best parameter found so far.

use crate::fixed::{
    fits_i64, fx_div, fx_div_val, fx_mul, fx_mul_val, fx_sqrt, fx_sqrt_val, lemma_isqrt_bound,
    lemma_mul_bound, lemma_tdiv_bound, lemma_tdiv_mono, lemma_tdiv_size, tdiv, SCALE,
};
use crate::ray::Ray;
use crate::vec3::{Point, Vec3};
use vstd::prelude::*;

verus! {

/// Largest admissible fixed-point coordinate (and hit parameter): 2^27,
/// or 2048 whole units.  Scenes and search windows stay inside it so
/// that every intermediate of the quadratic solver fits in an `i64`.
pub const B_COORD: i64 = 134217728;

/// Largest admissible ray-direction component: 2^24, or 256 whole units.
pub const B_DIR: i64 = 16777216;

/// A ray whose coordinates the solver can handle.
pub open spec fn ray_wf(r: Ray) -> bool {
    r.origin.bounded(B_COORD as int) && r.dir.bounded(B_DIR as int)
}

#[derive(Clone, Copy, PartialEq, Eq, Structural, Debug)]
pub struct HitRecord {
    pub p: Point,
    pub normal: Vec3,
    pub t: i64,
    pub front_face: bool,
}

impl HitRecord {
    /// Exact value of a freshly built record: the stored normal is the
    /// outward normal flipped, if need be, to face the incoming ray.
    pub open spec fn new_val(p: Point, t: i64, r: Ray, outward_normal: Vec3) -> HitRecord {
        let front_face = r.dir.dot_val(outward_normal) < 0;
        HitRecord {
            p,
            normal: if front_face {
                outward_normal
            } else {
                outward_normal.neg_val()
            },
            t,
            front_face,
        }
    }

    pub open spec fn new_fits(r: Ray, outward_normal: Vec3) -> bool {
        r.dir.dot_fits(outward_normal) && outward_normal.neg_fits()
    }

    /// Build a record, orienting the stored normal against the ray:
    /// `front_face` holds exactly when the outward normal already
    /// pointed back toward the ray.
    pub fn new(p: Point, t: i64, r: Ray, outward_normal: Vec3) -> (h: HitRecord)
        requires
            Self::new_fits(r, outward_normal),
        ensures
            h == Self::new_val(p, t, r, outward_normal),
    {
        let front_face = r.dir.dot(&outward_normal) < 0;
        let normal = if front_face {
            outward_normal
        } else {
            outward_normal.neg()
        };
        HitRecord { p, normal, t, front_face }
    }
}

/// The capability of reporting ray intersections: `hit` returns exactly
/// what the impl's `hit_val` describes, whenever `hit_req` admits the
/// inputs.
pub trait Hittable {
    /// Inputs on which `hit` may be called.
    spec fn hit_req(&self, r: Ray, t_min: i64, t_max: i64) -> bool;

    /// The exact outcome of `hit`.
    spec fn hit_val(&self, r: Ray, t_min: i64, t_max: i64) -> Option<HitRecord>;

    /// Report the nearest intersection with parameter inside the closed
    /// window `[t_min, t_max]`, or nothing.
    fn hit(&self, r: Ray, t_min: i64, t_max: i64) -> (res: Option<HitRecord>)
        requires
            self.hit_req(r, t_min, t_max),
        ensures
            res == self.hit_val(r, t_min, t_max),
    ;
}

#[derive(Clone, Copy, PartialEq, Eq, Structural, Debug)]
pub struct Sphere {
    pub center: Point,
    pub radius: i64,
}

impl Sphere {
    /// A sphere the solver can handle: bounded center, positive bounded
    /// radius.
    pub open spec fn wf(self) -> bool {
        self.center.bounded(B_COORD as int) && 0 < self.radius <= B_COORD
    }

    /// Offset from the sphere's center to the ray's origin.
    pub open spec fn oc_val(self, r: Ray) -> Vec3 {
        r.origin.sub_val(self.center)
    }

    /// Leading quadratic coefficient: the squared length of the ray
    /// direction.
    pub open spec fn a_val(self, r: Ray) -> int {
        r.dir.dot_val(r.dir)
    }

    /// Half the linear quadratic coefficient.
    pub open spec fn half_b_val(self, r: Ray) -> int {
        self.oc_val(r).dot_val(r.dir)
    }

    /// Constant quadratic coefficient.
    pub open spec fn c_val(self, r: Ray) -> int {
        self.oc_val(r).dot_val(self.oc_val(r)) - fx_mul_val(self.radius as int, self.radius as int)
    }

    /// Discriminant of the half-form quadratic.
    pub open spec fn disc_val(self, r: Ray) -> int {
        fx_mul_val(self.half_b_val(r), self.half_b_val(r)) - fx_mul_val(
            self.a_val(r),
            self.c_val(r),
        )
    }

    pub open spec fn sqrtd_val(self, r: Ray) -> int {
        fx_sqrt_val(self.disc_val(r))
    }

    /// The smaller quadratic root.
    pub open spec fn root1_val(self, r: Ray) -> int {
        fx_div_val(-self.half_b_val(r) - self.sqrtd_val(r), self.a_val(r))
    }

    /// The larger quadratic root.
    pub open spec fn root2_val(self, r: Ray) -> int {
        fx_div_val(-self.half_b_val(r) + self.sqrtd_val(r), self.a_val(r))
    }

    /// Which root, if any, the solver reports: no intersection when the
    /// discriminant is negative, else the smaller root when it lies in
    /// the closed window, else the larger root when it does, else none.
    pub open spec fn hit_root(self, r: Ray, t_min: i64, t_max: i64) -> Option<i64> {
        if self.disc_val(r) < 0 {
            None
        } else if t_min <= self.root1_val(r) <= t_max {
            Some(self.root1_val(r) as i64)
        } else if t_min <= self.root2_val(r) <= t_max {
            Some(self.root2_val(r) as i64)
        } else {
            None
        }
    }

    /// The record reported for an accepted root: the evaluated hit
    /// point, with the outward normal scaled by the inverse radius.
    pub open spec fn record_at(self, r: Ray, root: i64) -> HitRecord {
        let p = r.point_at_val(root);
        let outward = p.sub_val(self.center).div_val(self.radius);
        HitRecord::new_val(p, root, r, outward)
    }
}

impl Hittable for Sphere {
    open spec fn hit_req(&self, r: Ray, t_min: i64, t_max: i64) -> bool {
        &&& self.wf()
        &&& ray_wf(r)
        &&& r.dir.ls_val() > 0
        &&& -B_COORD <= t_min
        &&& t_max <= B_COORD
    }

    open spec fn hit_val(&self, r: Ray, t_min: i64, t_max: i64) -> Option<HitRecord> {
        match self.hit_root(r, t_min, t_max) {
            Some(root) => Some(self.record_at(r, root)),
            None => None,
        }
    }

    fn hit(&self, r: Ray, t_min: i64, t_max: i64) -> (res: Option<HitRecord>) {
        proof {
            lemma_sphere_coeff_fits(*self, r);
        }
        let oc = r.origin.sub(self.center);
        let a = r.dir.dot(&r.dir);
        let half_b = oc.dot(&r.dir);
        let c = oc.dot(&oc) - fx_mul(self.radius, self.radius);
        let discriminant = fx_mul(half_b, half_b) - fx_mul(a, c);

        if discriminant < 0 {
            return None;
        }

        let sqrtd = fx_sqrt(discriminant);
        proof {
            lemma_sphere_root_fits(*self, r);
        }
        let mut root = fx_div(0 - half_b - sqrtd, a);
        if root < t_min || t_max < root {
            root = fx_div(0 - half_b + sqrtd, a);
            if root < t_min || t_max < root {
                return None;
            }
        }

        proof {
            lemma_sphere_record_fits(*self, r, root);
        }
        let hit_point = r.point_at(root);
        let outward_normal = hit_point.sub(self.center).div(self.radius);
        let hit_record = HitRecord::new(hit_point, root, r, outward_normal);

        Some(hit_record)
    }
}

/// Bounds and in-range conditions for every quadratic coefficient of a
/// well-formed sphere and ray.
pub proof fn lemma_sphere_coeff_fits(s: Sphere, r: Ray)
    requires
        s.wf(),
        ray_wf(r),
        r.dir.ls_val() > 0,
    ensures
        r.origin.sub_fits(s.center),
        s.oc_val(r).bounded(2 * (B_COORD as int)),
        r.dir.dot_fits(r.dir),
        1 <= s.a_val(r) <= 0x300000000,
        s.oc_val(r).dot_fits(r.dir),
        -0x3000000000 <= s.half_b_val(r) <= 0x3000000000,
        s.oc_val(r).dot_fits(s.oc_val(r)),
        0 <= fx_mul_val(s.radius as int, s.radius as int) <= 0x4000000000,
        fits_i64(s.c_val(r)),
        -0x34000000000 <= s.c_val(r) <= 0x30000000000,
        fits_i64(fx_mul_val(s.half_b_val(r), s.half_b_val(r))),
        fits_i64(fx_mul_val(s.a_val(r), s.c_val(r))),
        fits_i64(s.disc_val(r)),
{
    lemma_dot_bound(r.dir, r.dir, B_DIR as int, B_DIR as int);
    lemma_dot_bound(s.oc_val(r), r.dir, 2 * (B_COORD as int), B_DIR as int);
    lemma_dot_bound(s.oc_val(r), s.oc_val(r), 2 * (B_COORD as int), 2 * (B_COORD as int));
    crate::vec3::lemma_square_fx_nonneg(s.radius as int);
    lemma_mul_bound(s.radius as int, s.radius as int, B_COORD as int, B_COORD as int);
    lemma_tdiv_bound(s.radius as int * (s.radius as int), SCALE as int, (B_COORD as int) * (
    B_COORD as int));
    let hb = s.half_b_val(r);
    let a = s.a_val(r);
    let c = s.c_val(r);
    lemma_mul_bound(hb, hb, 0x3000000000, 0x3000000000);
    lemma_tdiv_bound(hb * hb, SCALE as int, 0x3000000000int * 0x3000000000int);
    lemma_mul_bound(a, c, 0x300000000, 0x34000000000);
    lemma_tdiv_bound(a * c, SCALE as int, 0x300000000int * 0x34000000000int);
}

/// Bounds and in-range conditions for the square root and the two
/// candidate roots, once the discriminant is nonnegative.
pub proof fn lemma_sphere_root_fits(s: Sphere, r: Ray)
    requires
        s.wf(),
        ray_wf(r),
        r.dir.ls_val() > 0,
        s.disc_val(r) >= 0,
        fits_i64(s.disc_val(r)),
    ensures
        0 <= s.sqrtd_val(r) < 0x10000000000,
        fits_i64(-s.half_b_val(r) - s.sqrtd_val(r)),
        fits_i64(-s.half_b_val(r) + s.sqrtd_val(r)),
        fits_i64(s.root1_val(r)),
        fits_i64(s.root2_val(r)),
{
    lemma_sphere_coeff_fits(s, r);
    let d = s.disc_val(r);
    assert(d * (SCALE as int) < 0x10000000000 * 0x10000000000) by (nonlinear_arith)
        requires
            0 <= d <= i64::MAX as int,
    ;
    lemma_isqrt_bound((d * (SCALE as int)) as nat, 0x10000000000);
    let hb = s.half_b_val(r);
    let sq = s.sqrtd_val(r);
    let a = s.a_val(r);
    lemma_mul_bound(-hb - sq, SCALE as int, 0x13000000000, SCALE as int);
    lemma_tdiv_bound((-hb - sq) * (SCALE as int), a, 0x13000000000 * (SCALE as int));
    lemma_mul_bound(-hb + sq, SCALE as int, 0x13000000000, SCALE as int);
    lemma_tdiv_bound((-hb + sq) * (SCALE as int), a, 0x13000000000 * (SCALE as int));
}

/// In-range conditions for building the record of an accepted root, and
/// bounds on what the record holds.
pub proof fn lemma_sphere_record_fits(s: Sphere, r: Ray, root: i64)
    requires
        s.wf(),
        ray_wf(r),
        -B_COORD <= root <= B_COORD,
    ensures
        r.point_at_fits(root),
        r.point_at_val(root).bounded(0x1000000000),
        r.point_at_val(root).sub_fits(s.center),
        r.point_at_val(root).sub_val(s.center).div_fits(s.radius),
        r.point_at_val(root).sub_val(s.center).bounded(0x1080000000),
        HitRecord::new_fits(r, r.point_at_val(root).sub_val(s.center).div_val(s.radius)),
        s.record_at(r, root).normal.bounded(0x10800000000000),
        s.record_at(r, root).t == root,
{
    lemma_mul_bound(r.dir.x as int, root as int, B_DIR as int, B_COORD as int);
    lemma_mul_bound(r.dir.y as int, root as int, B_DIR as int, B_COORD as int);
    lemma_mul_bound(r.dir.z as int, root as int, B_DIR as int, B_COORD as int);
    lemma_tdiv_bound(r.dir.x as int * (root as int), SCALE as int, (B_DIR as int) * (
    B_COORD as int));
    lemma_tdiv_bound(r.dir.y as int * (root as int), SCALE as int, (B_DIR as int) * (
    B_COORD as int));
    lemma_tdiv_bound(r.dir.z as int * (root as int), SCALE as int, (B_DIR as int) * (
    B_COORD as int));
    let p = r.point_at_val(root);
    let d = p.sub_val(s.center);
    lemma_mul_bound(d.x as int, SCALE as int, 0x1080000000, SCALE as int);
    lemma_mul_bound(d.y as int, SCALE as int, 0x1080000000, SCALE as int);
    lemma_mul_bound(d.z as int, SCALE as int, 0x1080000000, SCALE as int);
    lemma_tdiv_bound(d.x as int * (SCALE as int), s.radius as int, 0x1080000000 * (SCALE as int));
    lemma_tdiv_bound(d.y as int * (SCALE as int), s.radius as int, 0x1080000000 * (SCALE as int));
    lemma_tdiv_bound(d.z as int * (SCALE as int), s.radius as int, 0x1080000000 * (SCALE as int));
    let outward = d.div_val(s.radius);
    lemma_dot_bound(r.dir, outward, B_DIR as int, 0x1080000000 * (SCALE as int));
}

/// One scene primitive.  The set is closed, so the scene holds a tagged
/// variant per kind rather than an open collection of capabilities.
#[derive(Clone, Copy, PartialEq, Eq, Structural, Debug)]
pub enum Primitive {
    Sphere(Sphere),
}

impl Primitive {
    pub open spec fn wf(self) -> bool {
        match self {
            Primitive::Sphere(s) => s.wf(),
        }
    }
}

impl Hittable for Primitive {
    open spec fn hit_req(&self, r: Ray, t_min: i64, t_max: i64) -> bool {
        match *self {
            Primitive::Sphere(s) => s.hit_req(r, t_min, t_max),
        }
    }

    open spec fn hit_val(&self, r: Ray, t_min: i64, t_max: i64) -> Option<HitRecord> {
        match *self {
            Primitive::Sphere(s) => s.hit_val(r, t_min, t_max),
        }
    }

    fn hit(&self, r: Ray, t_min: i64, t_max: i64) -> (res: Option<HitRecord>) {
        match self {
            Primitive::Sphere(s) => s.hit(r, t_min, t_max),
        }
    }
}

/// A reported sphere hit carries the accepted root as its parameter, so
/// it lies inside the window it was searched in.
pub proof fn lemma_sphere_hit_t_range(s: Sphere, r: Ray, t_min: i64, t_max: i64)
    ensures
        s.hit_val(r, t_min, t_max) matches Some(h) ==> t_min <= h.t <= t_max,
{
}

/// The same, lifted over the primitive variants.
pub proof fn lemma_primitive_hit_t_range(p: Primitive, r: Ray, t_min: i64, t_max: i64)
    ensures
        p.hit_val(r, t_min, t_max) matches Some(h) ==> t_min <= h.t <= t_max,
{
    match p {
        Primitive::Sphere(s) => lemma_sphere_hit_t_range(s, r, t_min, t_max),
    }
}

/// The scene: an ordered sequence of primitives searched exhaustively.
pub struct HittableList {
    pub objects: Vec<Primitive>,
}

/// The fold the scene search performs from index `i` on, carrying the
/// best record found so far: each remaining primitive is searched in the
/// window shrunk to the best parameter, and a reported hit replaces the
/// best record.
pub open spec fn list_hit_from(
    objs: Seq<Primitive>,
    i: int,
    r: Ray,
    t_min: i64,
    t_max: i64,
    best: Option<HitRecord>,
) -> Option<HitRecord>
    decreases objs.len() - i,
{
    if i < 0 || i >= objs.len() {
        best
    } else {
        let cur_max = match best {
            Some(h) => h.t,
            None => t_max,
        };
        match objs[i].hit_val(r, t_min, cur_max) {
            Some(h) => list_hit_from(objs, i + 1, r, t_min, t_max, Some(h)),
            None => list_hit_from(objs, i + 1, r, t_min, t_max, best),
        }
    }
}

impl HittableList {
    /// An empty scene.
    pub fn new() -> (l: HittableList)
        ensures
            l.objects@.len() == 0,
    {
        HittableList { objects: Vec::new() }
    }
}

impl Hittable for HittableList {
    open spec fn hit_req(&self, r: Ray, t_min: i64, t_max: i64) -> bool {
        &&& forall|i: int| 0 <= i < self.objects@.len() ==> (#[trigger] self.objects@[i]).wf()
        &&& ray_wf(r)
        &&& r.dir.ls_val() > 0
        &&& -B_COORD <= t_min
        &&& t_max <= B_COORD
    }

    open spec fn hit_val(&self, r: Ray, t_min: i64, t_max: i64) -> Option<HitRecord> {
        list_hit_from(self.objects@, 0, r, t_min, t_max, None)
    }

    fn hit(&self, r: Ray, t_min: i64, t_max: i64) -> (res: Option<HitRecord>) {
        let mut record: Option<HitRecord> = None;
        let mut closest_so_far = t_max;
        let mut i: usize = 0;
        while i < self.objects.len()
            invariant
                0 <= i <= self.objects@.len(),
                self.hit_req(r, t_min, t_max),
                closest_so_far as int == match record {
                    Some(h) => h.t as int,
                    None => t_max as int,
                },
                record matches Some(h) ==> t_min <= h.t <= t_max,
                list_hit_from(self.objects@, i as int, r, t_min, t_max, record) == self.hit_val(
                    r,
                    t_min,
                    t_max,
                ),
            decreases self.objects@.len() - i,
        {
            let obj = self.objects[i];
            let obj_res = obj.hit(r, t_min, closest_so_far);
            proof {
                lemma_primitive_hit_t_range(obj, r, t_min, closest_so_far);
                assert(list_hit_from(self.objects@, i as int, r, t_min, t_max, record) == (
                match self.objects@[i as int].hit_val(r, t_min, closest_so_far) {
                    Some(h) => list_hit_from(self.objects@, i as int + 1, r, t_min, t_max, Some(h)),
                    None => list_hit_from(self.objects@, i as int + 1, r, t_min, t_max, record),
                }));
            }
            if let Some(h) = obj_res {
                closest_so_far = h.t;
                record = Some(h);
            }
            i = i + 1;
        }
        record
    }
}

/// The record an accepted root from the sphere's own center builds: the
/// hit point is a nonnegative step along the direction, so the outward
/// normal runs with the ray and the stored face is a back face.
proof fn lemma_center_back_face(s: Sphere, r: Ray, rt: i64)
    requires
        s.wf(),
        ray_wf(r),
        r.origin == s.center,
        0 <= rt <= B_COORD,
    ensures
        !s.record_at(r, rt).front_face,
        s.record_at(r, rt).t == rt,
{
    lemma_sphere_record_fits(s, r, rt);
    let p = r.point_at_val(rt);
    let d = p.sub_val(s.center);
    assert(d.x as int == fx_mul_val(r.dir.x as int, rt as int));
    assert(d.y as int == fx_mul_val(r.dir.y as int, rt as int));
    assert(d.z as int == fx_mul_val(r.dir.z as int, rt as int));
    let outward = d.div_val(s.radius);
    lemma_step_keeps_sign(r.dir.x as int, rt as int, s.radius as int);
    lemma_step_keeps_sign(r.dir.y as int, rt as int, s.radius as int);
    lemma_step_keeps_sign(r.dir.z as int, rt as int, s.radius as int);
    lemma_tdiv_size(r.dir.x as int * (outward.x as int), SCALE as int);
    lemma_tdiv_size(r.dir.y as int * (outward.y as int), SCALE as int);
    lemma_tdiv_size(r.dir.z as int * (outward.z as int), SCALE as int);
    assert(r.dir.dot_val(outward) >= 0);
}

/// A nonnegative step along one coordinate, rescaled by the radius,
/// lands on the coordinate's own side of zero.
proof fn lemma_step_keeps_sign(dx: int, rt: int, radius: int)
    requires
        0 <= rt,
        0 < radius,
    ensures
        dx * fx_div_val(fx_mul_val(dx, rt), radius) >= 0,
{
    let s = SCALE as int;
    let q = fx_mul_val(dx, rt);
    let o = fx_div_val(q, radius);
    if dx >= 0 {
        assert(dx * rt >= 0) by (nonlinear_arith)
            requires
                dx >= 0 && rt >= 0,
        ;
        lemma_tdiv_size(dx * rt, s);
        assert(q * s >= 0);
        lemma_tdiv_size(q * s, radius);
        assert(dx * o >= 0) by (nonlinear_arith)
            requires
                dx >= 0 && o >= 0,
        ;
    } else {
        assert(dx * rt <= 0) by (nonlinear_arith)
            requires
                dx <= 0 && rt >= 0,
        ;
        lemma_tdiv_size(dx * rt, s);
        assert(q * s <= 0);
        lemma_tdiv_size(q * s, radius);
        assert(dx * o >= 0) by (nonlinear_arith)
            requires
                dx <= 0 && o <= 0,
        ;
    }
}

/// A ray cast from the sphere's own center reports, if anything, a
/// back-face hit at a nonnegative parameter: the outward normal runs
/// with the ray, never against it.
pub proof fn lemma_hit_from_center_is_back_face(s: Sphere, r: Ray, t_max: i64)
    requires
        s.wf(),
        ray_wf(r),
        r.dir.ls_val() > 0,
        r.origin == s.center,
        0 <= t_max <= B_COORD,
    ensures
        s.hit_val(r, 0, t_max) matches Some(h) ==> !h.front_face && 0 <= h.t <= t_max,
{
    match s.hit_root(r, 0, t_max) {
        Some(rt) => {
            lemma_center_back_face(s, r, rt);
        },
        None => {},
    }
}

/// Whatever the scene search returns carries a parameter inside the
/// window and a normal within the solver's bound.
pub proof fn lemma_list_hit_props(
    objs: Seq<Primitive>,
    i: int,
    r: Ray,
    t_min: i64,
    t_max: i64,
    best: Option<HitRecord>,
)
    requires
        forall|k: int| 0 <= k < objs.len() ==> (#[trigger] objs[k]).wf(),
        ray_wf(r),
        r.dir.ls_val() > 0,
        -B_COORD <= t_min,
        t_max <= B_COORD,
        best matches Some(h) ==> h.normal.bounded(0x10800000000000) && t_min <= h.t <= t_max,
    ensures
        list_hit_from(objs, i, r, t_min, t_max, best) matches Some(h) ==> h.normal.bounded(
            0x10800000000000,
        ) && t_min <= h.t <= t_max,
    decreases objs.len() - i,
{
    if 0 <= i < objs.len() {
        let cur_max = match best {
            Some(h) => h.t,
            None => t_max,
        };
        match objs[i].hit_val(r, t_min, cur_max) {
            Some(h) => {
                lemma_primitive_hit_t_range(objs[i], r, t_min, cur_max);
                match objs[i] {
                    Primitive::Sphere(s) => {
                        lemma_sphere_record_fits(s, r, h.t);
                    },
                }
                lemma_list_hit_props(objs, i + 1, r, t_min, t_max, Some(h));
            },
            None => {
                lemma_list_hit_props(objs, i + 1, r, t_min, t_max, best);
            },
        }
    }
}

/// Shrinking the search window onto a reported parameter keeps exactly
/// that hit; shrinking past it loses the sphere entirely.  This is what
/// lets the scene search drop farther intersections.
pub proof fn lemma_sphere_hit_shrink(s: Sphere, r: Ray, t_min: i64, t_max: i64, t2: i64)
    requires
        r.dir.ls_val() > 0,
        t_min <= t2 <= t_max,
    ensures
        match s.hit_val(r, t_min, t_max) {
            Some(h) => if h.t <= t2 {
                s.hit_val(r, t_min, t2) == Some(h)
            } else {
                s.hit_val(r, t_min, t2) is None
            },
            None => true,
        },
{
    if s.disc_val(r) >= 0 {
        let hb = s.half_b_val(r);
        let sq = s.sqrtd_val(r);
        let a = s.a_val(r);
        assert(sq >= 0);
        assert((-hb - sq) * (SCALE as int) <= (-hb + sq) * (SCALE as int)) by (nonlinear_arith)
            requires
                sq >= 0,
        ;
        lemma_tdiv_mono((-hb - sq) * (SCALE as int), (-hb + sq) * (SCALE as int), a);
    }
}

/// The scene search over two spheres that both intersect the window
/// reports the nearer of the two hits, never the farther one.
pub proof fn lemma_scene_nearest_of_two(
    world: HittableList,
    s1: Sphere,
    s2: Sphere,
    r: Ray,
    t_min: i64,
    t_max: i64,
    h1: HitRecord,
    h2: HitRecord,
)
    requires
        world.objects@ =~= seq![Primitive::Sphere(s1), Primitive::Sphere(s2)],
        r.dir.ls_val() > 0,
        s1.hit_val(r, t_min, t_max) == Some(h1),
        s2.hit_val(r, t_min, t_max) == Some(h2),
    ensures
        world.hit_val(r, t_min, t_max) == Some(
            if h2.t <= h1.t {
                h2
            } else {
                h1
            },
        ),
{
    lemma_sphere_hit_t_range(s1, r, t_min, t_max);
    lemma_sphere_hit_t_range(s2, r, t_min, t_max);
    let objs = world.objects@;
    assert(objs.len() == 2);
    assert(objs[0] == Primitive::Sphere(s1));
    assert(objs[1] == Primitive::Sphere(s2));
    assert(objs[0].hit_val(r, t_min, t_max) == Some(h1));
    assert(list_hit_from(objs, 0, r, t_min, t_max, None) == list_hit_from(
        objs,
        1,
        r,
        t_min,
        t_max,
        Some(h1),
    ));
    lemma_sphere_hit_shrink(s2, r, t_min, t_max, h1.t);
    if h2.t <= h1.t {
        assert(objs[1].hit_val(r, t_min, h1.t) == Some(h2));
        assert(list_hit_from(objs, 1, r, t_min, t_max, Some(h1)) == list_hit_from(
            objs,
            2,
            r,
            t_min,
            t_max,
            Some(h2),
        ));
        assert(list_hit_from(objs, 2, r, t_min, t_max, Some(h2)) == Some(h2));
    } else {
        assert(objs[1].hit_val(r, t_min, h1.t) is None);
        assert(list_hit_from(objs, 1, r, t_min, t_max, Some(h1)) == list_hit_from(
            objs,
            2,
            r,
            t_min,
            t_max,
            Some(h1),
        ));
        assert(list_hit_from(objs, 2, r, t_min, t_max, Some(h1)) == Some(h1));
    }
}

/// Dot products of vectors within given component bounds stay in range,
/// and are themselves bounded by three times the scaled product bound.
pub proof fn lemma_dot_bound(u: Vec3, w: Vec3, bu: int, bw: int)
    requires
        u.bounded(bu),
        w.bounded(bw),
        0 <= bu,
        0 <= bw,
        bu * bw <= 0x20000000000000000000,
    ensures
        u.dot_fits(w),
        -3 * tdiv(bu * bw, SCALE as int) <= u.dot_val(w) <= 3 * tdiv(bu * bw, SCALE as int),
{
    lemma_mul_bound(u.x as int, w.x as int, bu, bw);
    lemma_mul_bound(u.y as int, w.y as int, bu, bw);
    lemma_mul_bound(u.z as int, w.z as int, bu, bw);
    lemma_tdiv_bound(u.x as int * (w.x as int), SCALE as int, bu * bw);
    lemma_tdiv_bound(u.y as int * (w.y as int), SCALE as int, bu * bw);
    lemma_tdiv_bound(u.z as int * (w.z as int), SCALE as int, bu * bw);
    lemma_tdiv_mono(bu * bw, 0x20000000000000000000, SCALE as int);
    assert(tdiv(0x20000000000000000000, SCALE as int) == 0x2000000000000000);
    lemma_tdiv_size(bu * bw, SCALE as int);
}

} // verus!
