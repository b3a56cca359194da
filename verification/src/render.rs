//! The renderer: shading of a single ray, and the per-scanline loop
//! that averages jittered samples into encoded pixel triples.

use crate::camera::Camera;
use crate::fixed::{
    fx_div, fx_div_val, fx_mul, fx_mul_val, lemma_mul_bound, lemma_tdiv_bound, lemma_tdiv_exact,
    lemma_tdiv_lt, lemma_tdiv_mono, lemma_tdiv_size, tdiv, SCALE,
};
use vstd::arithmetic::div_mod::lemma_hoist_over_denominator;
use crate::hittable::{
    lemma_list_hit_props, list_hit_from, ray_wf, Hittable, HittableList, B_COORD, B_DIR,
};
use crate::ray::Ray;
use crate::rng::rand_range;
use crate::vec3::{encode_channel_val, lemma_unit_fits_of_bounded, lemma_unit_y_bound, Color, Vec3, BALL_MIN_LS};
use rand::rngs::StdRng;
use vstd::prelude::*;

verus! {

/// Fixed-point one half.
pub const HALF: i64 = 32768;

/// Red and green of the sky blue the background blends toward (its blue
/// channel is a full 1.0).
pub const SKY_R: i64 = 32768;

pub const SKY_G: i64 = 45875;

/// Bound on any channel of a shaded sample color.
pub const B_CHAN: i64 = 0x10000000000000;

/// All primitives of a scene within the solver's bounds.
pub open spec fn scene_wf(world: HittableList) -> bool {
    forall|i: int| 0 <= i < world.objects@.len() ==> (#[trigger] world.objects@[i]).wf()
}

/// The background for a unit direction: white blended toward sky blue
/// as the direction tilts upward.
pub open spec fn sky_val(u: Vec3) -> Vec3 {
    let t = fx_mul_val(HALF as int, u.y + SCALE) as i64;
    let white = Vec3 { x: SCALE, y: SCALE, z: SCALE };
    let blue = Vec3 { x: SKY_R, y: SKY_G, z: SCALE };
    white.mul_val((SCALE - t) as i64).add_val(blue.mul_val(t))
}

/// The normal-visualization shade of a hit: half of the stored normal
/// shifted up by one.
pub open spec fn shade_val(n: Vec3) -> Vec3 {
    let shifted = Vec3 { x: (n.x + SCALE) as i64, y: (n.y + SCALE) as i64, z: (n.z + SCALE) as i64 };
    shifted.mul_val(HALF)
}

/// What one ray is worth: the shaded nearest hit within the far bound,
/// or the sky gradient behind the whole scene.
pub open spec fn ray_color_val(r: Ray, world: HittableList) -> Vec3 {
    match world.hit_val(r, 0, B_COORD) {
        Some(h) => shade_val(h.normal),
        None => sky_val(r.dir.unit_val()),
    }
}

/// With no primitives at all, every ray is worth exactly the sky
/// gradient of its unit direction.
pub proof fn lemma_empty_scene_sky(r: Ray, world: HittableList)
    requires
        world.objects@.len() == 0,
    ensures
        ray_color_val(r, world) == sky_val(r.dir.unit_val()),
{
    assert(list_hit_from(world.objects@, 0, r, 0, B_COORD, None) is None);
}

/// A shade stays within one of [0, 1] per channel, up to 32 fixed-point
/// units, whenever the stored normal is within 64 units of unit
/// components.  Whether a scene's solver normals meet that bound is a
/// property of the scene.
pub proof fn lemma_shade_range(n: Vec3)
    requires
        n.bounded(SCALE as int + 64),
    ensures
        -32 <= shade_val(n).x <= SCALE as int + 32,
        -32 <= shade_val(n).y <= SCALE as int + 32,
        -32 <= shade_val(n).z <= SCALE as int + 32,
{
    lemma_shade_channel(n.x as int);
    lemma_shade_channel(n.y as int);
    lemma_shade_channel(n.z as int);
}

/// One channel of a shade, bounded.
proof fn lemma_shade_channel(c: int)
    requires
        -(SCALE as int) - 64 <= c <= SCALE as int + 64,
    ensures
        -32 <= fx_mul_val(c + SCALE, HALF as int) <= SCALE as int + 32,
{
    let s = SCALE as int;
    lemma_mul_bound(c + s, HALF as int, 2 * s + 64, HALF as int);
    lemma_tdiv_mono(-64 * (HALF as int), (c + s) * (HALF as int), s);
    lemma_tdiv_mono((c + s) * (HALF as int), (2 * s + 64) * (HALF as int), s);
    assert(tdiv(-64 * (HALF as int), s) == -32);
    assert(tdiv((2 * s + 64) * (HALF as int), s) == s + 32);
}

/// Scaling a blend factor by a channel weight no larger than one keeps
/// the term between zero and the factor, and moving the factor moves
/// the term by no more.
proof fn lemma_blend_term(c: int, t: int)
    requires
        0 < c <= SCALE as int,
    ensures
        t >= 0 ==> 0 <= fx_mul_val(c, t) <= t,
        t < 0 ==> t <= fx_mul_val(c, t) <= 0,
{
    let s = SCALE as int;
    lemma_tdiv_size(c * t, s);
    if t >= 0 {
        assert(0 <= c * t <= s * t) by (nonlinear_arith)
            requires
                0 < c <= s,
                t >= 0,
        ;
        lemma_tdiv_mono(c * t, s * t, s);
        lemma_tdiv_exact(t, s);
        assert(t * s == s * t) by (nonlinear_arith);
    } else {
        assert(s * t <= c * t <= 0) by (nonlinear_arith)
            requires
                0 < c <= s,
                t < 0,
        ;
        lemma_tdiv_mono(s * t, c * t, s);
        lemma_tdiv_exact(t, s);
        assert(t * s == s * t) by (nonlinear_arith);
    }
}

/// The sky color of a near-unit direction stays within one of [0, 1]
/// per channel, up to 14 fixed-point units, and its blue channel is a
/// full 1.0 exactly.
pub proof fn lemma_sky_range(u: Vec3)
    requires
        -(SCALE as int + 28) <= u.y <= SCALE as int + 28,
    ensures
        -14 <= sky_val(u).x <= SCALE as int + 14,
        -14 <= sky_val(u).y <= SCALE as int + 14,
        sky_val(u).z == SCALE,
{
    let s = SCALE as int;
    let t = fx_mul_val(HALF as int, u.y + s);
    lemma_mul_bound(HALF as int, u.y + s, HALF as int, 2 * s + 28);
    lemma_tdiv_mono((HALF as int) * -28, (HALF as int) * (u.y + s), s);
    lemma_tdiv_mono((HALF as int) * (u.y + s), (HALF as int) * (2 * s + 28), s);
    assert(tdiv((HALF as int) * -28, s) == -14);
    assert(tdiv((HALF as int) * (2 * s + 28), s) == s + 14);
    let ti = t as i64;
    assert(ti as int == t);
    // The white term carries its factor through exactly.
    lemma_tdiv_exact(s - t, s);
    assert((s - t) * s == s * (s - t)) by (nonlinear_arith);
    assert(fx_mul_val(s, (s - t)) == s - t);
    // Each blue term stays between zero and the factor.
    lemma_blend_term(SKY_R as int, t);
    lemma_blend_term(SKY_G as int, t);
    lemma_blend_term(s, t);
    lemma_tdiv_exact(t, s);
    assert(t * s == s * t) by (nonlinear_arith);
    assert(fx_mul_val(s, t) == t);
}

/// The sky gradient runs monotonically: a direction that points further
/// up blends no less toward blue, so its red and green channels do not
/// rise, while the blue channel stays a full 1.0 for both.
pub proof fn lemma_sky_gradient(u1: Vec3, u2: Vec3)
    requires
        -(SCALE as int) <= u2.y <= u1.y <= SCALE as int + 28,
    ensures
        sky_val(u1).x <= sky_val(u2).x,
        sky_val(u1).y <= sky_val(u2).y,
        sky_val(u1).z == sky_val(u2).z == SCALE,
{
    let s = SCALE as int;
    lemma_sky_range(u1);
    lemma_sky_range(u2);
    let t1 = fx_mul_val(HALF as int, u1.y + s);
    let t2 = fx_mul_val(HALF as int, u2.y + s);
    assert((HALF as int) * (u2.y + s) <= (HALF as int) * (u1.y + s));
    lemma_tdiv_mono((HALF as int) * 0, (HALF as int) * (u2.y + s), s);
    lemma_tdiv_mono((HALF as int) * (u2.y + s), (HALF as int) * (u1.y + s), s);
    assert(tdiv(0, s) == 0);
    assert(0 <= t2 <= t1);
    lemma_blend_lipschitz(SKY_R as int, t2, t1);
    lemma_blend_lipschitz(SKY_G as int, t2, t1);
    lemma_tdiv_exact(t1, s);
    lemma_tdiv_exact(t2, s);
    assert(t1 * s == s * t1 && t2 * s == s * t2) by (nonlinear_arith);
    lemma_tdiv_exact(s - t1, s);
    lemma_tdiv_exact(s - t2, s);
    assert((s - t1) * s == s * (s - t1) && (s - t2) * s == s * (s - t2)) by (nonlinear_arith);
}

/// Raising a nonnegative blend factor raises a blend term by no more
/// than the factor rose.
proof fn lemma_blend_lipschitz(c: int, t2: int, t1: int)
    requires
        0 < c <= SCALE as int,
        0 <= t2 <= t1,
    ensures
        fx_mul_val(c, t2) <= fx_mul_val(c, t1) <= fx_mul_val(c, t2) + (t1 - t2),
{
    let s = SCALE as int;
    let d = t1 - t2;
    assert(c * t2 <= c * t1) by (nonlinear_arith)
        requires
            c > 0 && t2 <= t1,
    ;
    lemma_tdiv_mono(c * t2, c * t1, s);
    assert(c * t1 <= c * t2 + s * d) by (nonlinear_arith)
        requires
            0 < c <= s,
            d == t1 - t2,
            d >= 0,
    ;
    lemma_tdiv_mono(c * t1, c * t2 + s * d, s);
    assert(c * t2 >= 0) by (nonlinear_arith)
        requires
            c > 0 && t2 >= 0,
    ;
    lemma_hoist_over_denominator(c * t2, d, s as nat);
    assert(c * t2 + d * s == c * t2 + s * d) by (nonlinear_arith);
    assert(tdiv(c * t2 + s * d, s) == tdiv(c * t2, s) + d);
}

/// Shade one ray against the scene.
pub fn ray_color(r: &Ray, world: &HittableList) -> (color: Color)
    requires
        scene_wf(*world),
        ray_wf(*r),
        r.dir.ls_val() > 0,
    ensures
        color == ray_color_val(*r, *world),
        color.bounded(B_CHAN as int),
        r.dir.ls_val() >= BALL_MIN_LS as int && world.hit_val(*r, 0, B_COORD) is None ==> {
            &&& -14 <= color.x <= SCALE + 14
            &&& -14 <= color.y <= SCALE + 14
            &&& color.z == SCALE
        },
{
    proof {
        lemma_list_hit_props(world.objects@, 0, *r, 0, B_COORD, None);
    }
    let res = world.hit(*r, 0, B_COORD);
    match res {
        Some(hit_record) => {
            let normal = hit_record.normal;
            let shifted = Vec3::new(normal.x + SCALE, normal.y + SCALE, normal.z + SCALE);
            proof {
                lemma_mul_bound(shifted.x as int, HALF as int, 0x10800000010000int, HALF as int);
                lemma_mul_bound(shifted.y as int, HALF as int, 0x10800000010000int, HALF as int);
                lemma_mul_bound(shifted.z as int, HALF as int, 0x10800000010000int, HALF as int);
                lemma_tdiv_bound(
                    shifted.x as int * (HALF as int),
                    SCALE as int,
                    0x10800000010000int * 0x8000int,
                );
                lemma_tdiv_bound(
                    shifted.y as int * (HALF as int),
                    SCALE as int,
                    0x10800000010000int * 0x8000int,
                );
                lemma_tdiv_bound(
                    shifted.z as int * (HALF as int),
                    SCALE as int,
                    0x10800000010000int * 0x8000int,
                );
            }
            shifted.mul(HALF)
        },
        None => {
            proof {
                crate::hittable::lemma_dot_bound(r.dir, r.dir, B_DIR as int, B_DIR as int);
                lemma_unit_fits_of_bounded(r.dir, B_DIR as int);
            }
            let unit_direction = r.dir.unit_vector();
            let t = fx_mul(HALF, unit_direction.y + SCALE);
            proof {
                if r.dir.ls_val() >= BALL_MIN_LS as int {
                    lemma_unit_y_bound(r.dir);
                    lemma_sky_range(unit_direction);
                }
                lemma_mul_bound(
                    unit_direction.y + SCALE as int,
                    HALF as int,
                    0x10000010000int,
                    HALF as int,
                );
                lemma_tdiv_bound(
                    (unit_direction.y + SCALE) as int * (HALF as int),
                    SCALE as int,
                    0x10000010000int * 0x8000int,
                );
                lemma_sky_mul_fits(t);
            }
            let white = Vec3::new(SCALE, SCALE, SCALE);
            let blue = Vec3::new(SKY_R, SKY_G, SCALE);
            white.mul(SCALE - t).add(blue.mul(t))
        },
    }
}

/// Blending factors in the sky's range keep both blend terms small.
proof fn lemma_sky_mul_fits(t: i64)
    requires
        -0x10000000000 <= t <= 0x10000000000,
    ensures
        (Vec3 { x: SCALE, y: SCALE, z: SCALE }).mul_fits((SCALE - t) as i64),
        (Vec3 { x: SCALE, y: SCALE, z: SCALE }).mul_val((SCALE - t) as i64).bounded(
            0x10001000000int,
        ),
        (Vec3 { x: SKY_R, y: SKY_G, z: SCALE }).mul_fits(t),
        (Vec3 { x: SKY_R, y: SKY_G, z: SCALE }).mul_val(t).bounded(0x10000000000int),
        (Vec3 { x: SCALE, y: SCALE, z: SCALE }).mul_val((SCALE - t) as i64).add_fits(
            (Vec3 { x: SKY_R, y: SKY_G, z: SCALE }).mul_val(t),
        ),
{
    let k = (SCALE - t) as i64;
    lemma_mul_bound(SCALE as int, k as int, SCALE as int, 0x10001000000int);
    lemma_tdiv_bound(SCALE as int * (k as int), SCALE as int, 0x10000int * 0x10001000000int);
    lemma_mul_bound(SKY_R as int, t as int, SCALE as int, 0x10000000000int);
    lemma_mul_bound(SKY_G as int, t as int, SCALE as int, 0x10000000000int);
    lemma_mul_bound(SCALE as int, t as int, SCALE as int, 0x10000000000int);
    lemma_tdiv_bound(SKY_R as int * (t as int), SCALE as int, 0x10000int * 0x10000000000int);
    lemma_tdiv_bound(SKY_G as int * (t as int), SCALE as int, 0x10000int * 0x10000000000int);
    lemma_tdiv_bound(SCALE as int * (t as int), SCALE as int, 0x10000int * 0x10000000000int);
}

/// Image-plane coordinate of pixel `i` out of `extent`, jittered by
/// `jit`: the exact fixed-point quotient `(i + jit) / (extent - 1)`.
pub open spec fn pixel_coord_val(i: int, jit: int, extent: int) -> int {
    fx_div_val(i * (SCALE as int) + jit, (extent - 1) * (SCALE as int))
}

/// An admissible jitter sequence: one pair of draws per sample, each in
/// [0, 1).
pub open spec fn jitters_ok(js: Seq<(int, int)>) -> bool {
    forall|q: int|
        0 <= q < js.len() ==> {
            &&& 0 <= (#[trigger] js[q]).0 < SCALE
            &&& 0 <= js[q].1 < SCALE
        }
}

/// The color one jittered sample contributes to pixel `(i, j)`.
pub open spec fn sample_val(
    world: HittableList,
    camera: Camera,
    i: int,
    j: int,
    w: int,
    h: int,
    jit: (int, int),
) -> Vec3 {
    ray_color_val(
        camera.get_ray_val(
            pixel_coord_val(i, jit.0, w) as i64,
            pixel_coord_val(j, jit.1, h) as i64,
        ),
        world,
    )
}

/// The first `s` samples of pixel `(i, j)`, summed in order.
pub open spec fn accum_val(
    world: HittableList,
    camera: Camera,
    i: int,
    j: int,
    w: int,
    h: int,
    js: Seq<(int, int)>,
    s: int,
) -> Vec3
    decreases s,
{
    if s <= 0 {
        Vec3 { x: 0, y: 0, z: 0 }
    } else {
        accum_val(world, camera, i, j, w, h, js, s - 1).add_val(
            sample_val(world, camera, i, j, w, h, js[s - 1]),
        )
    }
}

/// The accumulated sum only reads the draws it consumed: two jitter
/// sequences that agree on the first `s` pairs accumulate alike.
proof fn lemma_accum_agrees(
    world: HittableList,
    camera: Camera,
    i: int,
    j: int,
    w: int,
    h: int,
    js1: Seq<(int, int)>,
    js2: Seq<(int, int)>,
    s: int,
)
    requires
        forall|q: int| 0 <= q < s ==> js1[q] == js2[q],
    ensures
        accum_val(world, camera, i, j, w, h, js1, s) == accum_val(world, camera, i, j, w, h, js2, s),
    decreases s,
{
    if s > 0 {
        lemma_accum_agrees(world, camera, i, j, w, h, js1, js2, s - 1);
    }
}

/// What a rendered pixel must be: the encoded per-channel average of
/// `samples` jittered camera rays shaded against the scene, for some
/// admissible sequence of draws.
pub open spec fn pixel_ok(
    world: HittableList,
    camera: Camera,
    i: int,
    j: int,
    w: int,
    h: int,
    samples: int,
    px: (i32, i32, i32),
) -> bool {
    exists|js: Seq<(int, int)>|
        {
            &&& #[trigger] js.len() == samples
            &&& jitters_ok(js)
            &&& ({
                let c = accum_val(world, camera, i, j, w, h, js, samples);
                &&& px.0 as int == encode_channel_val(c.x as int, samples)
                &&& px.1 as int == encode_channel_val(c.y as int, samples)
                &&& px.2 as int == encode_channel_val(c.z as int, samples)
            })
        }
}

/// Render one scanline: for each pixel of row `j`, average the given
/// number of jittered samples, and encode the result as integer
/// channels.  Row `0` is the bottom of the image.
pub fn render_row(
    world: &HittableList,
    camera: &Camera,
    rng: &mut StdRng,
    j: usize,
    image_width: usize,
    image_height: usize,
    samples_per_pixel: u32,
) -> (row: Vec<(i32, i32, i32)>)
    requires
        scene_wf(*world),
        camera.wf(),
        2 <= image_width <= 16384,
        2 <= image_height <= 16384,
        j < image_height,
        1 <= samples_per_pixel <= 1024,
    ensures
        row@.len() == image_width as int,
        forall|k: int|
            0 <= k < row@.len() ==> {
                &&& 0 <= (#[trigger] row@[k]).0 <= 255
                &&& 0 <= row@[k].1 <= 255
                &&& 0 <= row@[k].2 <= 255
            },
        forall|k: int|
            0 <= k < row@.len() ==> pixel_ok(
                *world,
                *camera,
                k,
                j as int,
                image_width as int,
                image_height as int,
                samples_per_pixel as int,
                #[trigger] row@[k],
            ),
{
    let mut row: Vec<(i32, i32, i32)> = Vec::new();
    let mut i: usize = 0;
    while i < image_width
        invariant
            scene_wf(*world),
            camera.wf(),
            2 <= image_width <= 16384,
            2 <= image_height <= 16384,
            j < image_height,
            1 <= samples_per_pixel <= 1024,
            i <= image_width,
            row@.len() == i as int,
            forall|k: int|
                0 <= k < row@.len() ==> {
                    &&& 0 <= (#[trigger] row@[k]).0 <= 255
                    &&& 0 <= row@[k].1 <= 255
                    &&& 0 <= row@[k].2 <= 255
                },
            forall|k: int|
                0 <= k < row@.len() ==> pixel_ok(
                    *world,
                    *camera,
                    k,
                    j as int,
                    image_width as int,
                    image_height as int,
                    samples_per_pixel as int,
                    #[trigger] row@[k],
                ),
        decreases image_width - i,
    {
        let mut color = Vec3::new(0, 0, 0);
        let mut s: u32 = 0;
        let ghost mut js: Seq<(int, int)> = Seq::empty();
        while s < samples_per_pixel
            invariant
                scene_wf(*world),
                camera.wf(),
                2 <= image_width <= 16384,
                2 <= image_height <= 16384,
                j < image_height,
                i < image_width,
                1 <= samples_per_pixel <= 1024,
                s <= samples_per_pixel,
                color.bounded((s as int) * (B_CHAN as int)),
                js.len() == s as int,
                jitters_ok(js),
                color == accum_val(
                    *world,
                    *camera,
                    i as int,
                    j as int,
                    image_width as int,
                    image_height as int,
                    js,
                    s as int,
                ),
            decreases samples_per_pixel - s,
        {
            let randu = rand_range(rng, 0, SCALE);
            let randv = rand_range(rng, 0, SCALE);
            let u = pixel_coord(i, randu, image_width);
            let v = pixel_coord(j, randv, image_height);
            let ray = camera.get_ray(u, v);
            let sample_color = ray_color(&ray, world);
            proof {
                let js_old = js;
                js = js.push((randu as int, randv as int));
                lemma_accum_agrees(
                    *world,
                    *camera,
                    i as int,
                    j as int,
                    image_width as int,
                    image_height as int,
                    js_old,
                    js,
                    s as int,
                );
                assert((pixel_coord_val(i as int, randu as int, image_width as int)) as i64 == u);
                assert((pixel_coord_val(j as int, randv as int, image_height as int)) as i64 == v);
                assert(sample_color == sample_val(
                    *world,
                    *camera,
                    i as int,
                    j as int,
                    image_width as int,
                    image_height as int,
                    js[s as int],
                ));
            }
            color.add_assign(sample_color);
            s = s + 1;
        }
        let rgb = color.write_color(samples_per_pixel as i64);
        proof {
            assert(pixel_ok(
                *world,
                *camera,
                i as int,
                j as int,
                image_width as int,
                image_height as int,
                samples_per_pixel as int,
                rgb,
            ));
        }
        row.push(rgb);
        i = i + 1;
    }
    row
}

/// Normalized image-plane coordinate of pixel `i` jittered by `jitter`:
/// `(i + jitter) / (extent - 1)`, landing in `[0, 2]`.
fn pixel_coord(i: usize, jitter: i64, extent: usize) -> (u: i64)
    requires
        2 <= extent <= 16384,
        i < extent,
        0 <= jitter < SCALE,
    ensures
        0 <= u <= 2 * SCALE,
        u as int == pixel_coord_val(i as int, jitter as int, extent as int),
{
    let num = (i as i64) * SCALE + jitter;
    let den = ((extent - 1) as i64) * SCALE;
    proof {
        lemma_mul_bound(num as int, SCALE as int, 0x100000000000int, SCALE as int);
        lemma_tdiv_size((num as int) * (SCALE as int), den as int);
        assert((num as int) * (SCALE as int) < (den as int) * (2 * (SCALE as int)))
            by (nonlinear_arith)
            requires
                0 < SCALE as int,
                0 < den as int,
                (num as int) < 2 * (den as int),
        ;
        lemma_tdiv_lt((num as int) * (SCALE as int), den as int, 2 * (SCALE as int));
    }
    fx_div(num, den)
}

} // verus!
