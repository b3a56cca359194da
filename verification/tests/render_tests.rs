use raytracer::camera::Camera;
use raytracer::fixed::SCALE;
use raytracer::hittable::{HittableList, Primitive, Sphere};
use raytracer::render::{ray_color, render_row};
use raytracer::rng::seed_rng;
use raytracer::vec3::Vec3;

fn fx(x: i64) -> i64 {
    x * SCALE
}

fn two_sphere_scene() -> HittableList {
    let mut world = HittableList::new();
    world.objects.push(Primitive::Sphere(Sphere {
        center: Vec3::new(0, 0, fx(-1)),
        radius: SCALE / 2,
    }));
    world.objects.push(Primitive::Sphere(Sphere {
        center: Vec3::new(0, fx(-100) - SCALE / 2, fx(-1)),
        radius: fx(100),
    }));
    world
}

fn render_image(seed: u64, width: usize, height: usize, samples: u32) -> String {
    let world = two_sphere_scene();
    let camera = Camera::new();
    let mut rng = seed_rng(seed);
    let mut out = String::new();
    out.push_str(&format!("P3\n{} {} \n255\n", width, height));
    let mut j: usize = height;
    while j > 0 {
        j -= 1;
        let row = render_row(&world, &camera, &mut rng, j, width, height, samples);
        for (r, g, b) in row {
            out.push_str(&format!("{} {} {}\n", r, g, b));
        }
    }
    out
}

#[test]
fn render_is_reproducible_with_fixed_seed() {
    let first = render_image(42, 400, 225, 2);
    let second = render_image(42, 400, 225, 2);
    assert_eq!(first, second);
    assert!(first.starts_with("P3\n400 225 \n255\n"));
    assert_eq!(first.lines().count(), 3 + 400 * 225);
}

#[test]
fn render_spec_scene_pixels_are_bytes() {
    let world = two_sphere_scene();
    let camera = Camera::new();
    let mut rng = seed_rng(1);
    let row = render_row(&world, &camera, &mut rng, 100, 400, 225, 4);
    assert_eq!(row.len(), 400);
    for (r, g, b) in row {
        assert!((0..=255).contains(&r));
        assert!((0..=255).contains(&g));
        assert!((0..=255).contains(&b));
    }
}

#[test]
fn empty_scene_renders_sky_gradient() {
    let world = HittableList::new();
    let camera = Camera::new();

    let mut rng = seed_rng(5);
    let top = render_row(&world, &camera, &mut rng, 224, 400, 225, 4);
    let mut rng = seed_rng(5);
    let bottom = render_row(&world, &camera, &mut rng, 0, 400, 225, 4);

    // The top of the sky leans toward blue: the red channel sits well
    // below the blue one.  The bottom leans toward white: its channels
    // lie closer together and its red is brighter than the top's.
    let (tr, _tg, tb) = top[200];
    let (br, _bg, bb) = bottom[200];
    assert!(tr < tb);
    assert!(tr < br);
    assert!(bb - br < tb - tr);
    assert!(br >= 230);
}

#[test]
fn sky_color_has_full_blue_channel() {
    let world = HittableList::new();
    let camera = Camera::new();
    // A handful of viewport points: every miss is a sky blend whose
    // blue channel is exactly 1.0 and whose other channels stay within
    // a hair of [0, 1].
    for (u, v) in [(0, 0), (SCALE / 2, SCALE / 2), (SCALE, SCALE), (SCALE / 4, SCALE)] {
        let ray = camera.get_ray(u, v);
        let c = ray_color(&ray, &world);
        assert_eq!(c.z, SCALE);
        assert!(-14 <= c.x && c.x <= SCALE + 14);
        assert!(-14 <= c.y && c.y <= SCALE + 14);
    }
}
