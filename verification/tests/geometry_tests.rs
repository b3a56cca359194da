use raytracer::camera::Camera;
use raytracer::fixed::SCALE;
use raytracer::hittable::{HitRecord, Hittable, HittableList, Primitive, Sphere, B_COORD};
use raytracer::ray::Ray;
use raytracer::utils::clamp;
use raytracer::vec3::Vec3;

fn fx(x: i64) -> i64 {
    x * SCALE
}

#[test]
fn test_point_at() {
    let origin = Vec3::new(fx(1), fx(2), fx(3));
    let dir = Vec3::new(fx(4), fx(5), fx(6));
    let ray = Ray { origin, dir };
    let t = fx(2);
    let point = ray.point_at(t);
    assert_eq!(point.x, fx(9));
    assert_eq!(point.y, fx(12));
    assert_eq!(point.z, fx(15));
}

#[test]
fn test_clamp() {
    assert_eq!(clamp(fx(-3), fx(-2), fx(1)), fx(-2));
    assert_eq!(clamp(fx(-2), fx(-2), fx(1)), fx(-2));
    assert_eq!(clamp(SCALE / 2, fx(-2), fx(1)), SCALE / 2);
    assert_eq!(clamp(fx(1), fx(-2), fx(1)), fx(1));
    assert_eq!(clamp(fx(3), fx(-2), fx(1)), fx(1));
}

#[test]
fn point_at_zero_is_origin() {
    let origin = Vec3::new(12345, -678, fx(9));
    let dir = Vec3::new(fx(1), fx(-2), 777);
    let ray = Ray { origin, dir };
    assert_eq!(ray.point_at(0), origin);
}

#[test]
fn sphere_hit_head_on_from_outside() {
    let s = Sphere { center: Vec3::new(0, 0, fx(-1)), radius: SCALE / 2 };
    let r = Ray { origin: Vec3::new(0, 0, 0), dir: Vec3::new(0, 0, fx(-1)) };
    let hit = s.hit(r, 0, B_COORD).expect("aimed at the center, must hit");
    assert_eq!(hit.t, SCALE / 2);
    assert!(hit.t > 0);
    assert!(hit.front_face);
    // The stored normal points back toward the ray origin.
    assert_eq!(hit.normal, Vec3::new(0, 0, fx(1)));
    assert_eq!(hit.p, Vec3::new(0, 0, -SCALE / 2));
}

#[test]
fn sphere_miss_returns_none() {
    let s = Sphere { center: Vec3::new(0, 0, fx(-1)), radius: SCALE / 2 };
    let r = Ray { origin: Vec3::new(0, 0, 0), dir: Vec3::new(0, fx(1), 0) };
    assert!(s.hit(r, 0, B_COORD).is_none());
}

#[test]
fn sphere_hit_from_inside_is_back_face() {
    let s = Sphere { center: Vec3::new(0, 0, fx(-1)), radius: SCALE / 2 };
    let r = Ray { origin: Vec3::new(0, 0, fx(-1)), dir: Vec3::new(0, 0, fx(-1)) };
    let hit = s.hit(r, 0, B_COORD).expect("a ray from the center must hit");
    assert_eq!(hit.t, SCALE / 2);
    assert!(!hit.front_face);
    // The outward normal got flipped to face the incoming ray.
    assert_eq!(hit.normal, Vec3::new(0, 0, fx(1)));
}

#[test]
fn hit_record_orients_normal_against_ray() {
    let r = Ray { origin: Vec3::new(0, 0, 0), dir: Vec3::new(0, 0, fx(-1)) };
    let toward = HitRecord::new(Vec3::new(0, 0, 0), fx(1), r, Vec3::new(0, 0, fx(1)));
    assert!(toward.front_face);
    assert_eq!(toward.normal, Vec3::new(0, 0, fx(1)));
    let away = HitRecord::new(Vec3::new(0, 0, 0), fx(1), r, Vec3::new(0, 0, fx(-1)));
    assert!(!away.front_face);
    assert_eq!(away.normal, Vec3::new(0, 0, fx(1)));
}

#[test]
fn scene_returns_nearest_of_two_spheres() {
    let near = Sphere { center: Vec3::new(0, 0, fx(-1)), radius: SCALE / 2 };
    let far = Sphere { center: Vec3::new(0, 0, fx(-2)), radius: SCALE / 2 };
    let r = Ray { origin: Vec3::new(0, 0, 0), dir: Vec3::new(0, 0, fx(-1)) };
    let near_t = near.hit(r, 0, B_COORD).unwrap().t;
    let far_t = far.hit(r, 0, B_COORD).unwrap().t;
    assert!(near_t < far_t);

    // Whichever insertion order, the scene reports the near sphere.
    let mut world = HittableList::new();
    world.objects.push(Primitive::Sphere(far));
    world.objects.push(Primitive::Sphere(near));
    assert_eq!(world.hit(r, 0, B_COORD).unwrap().t, near_t);

    let mut world2 = HittableList::new();
    world2.objects.push(Primitive::Sphere(near));
    world2.objects.push(Primitive::Sphere(far));
    assert_eq!(world2.hit(r, 0, B_COORD).unwrap().t, near_t);
}

#[test]
fn empty_scene_never_hits() {
    let world = HittableList::new();
    let r = Ray { origin: Vec3::new(0, 0, 0), dir: Vec3::new(0, 0, fx(-1)) };
    assert!(world.hit(r, 0, B_COORD).is_none());
}

#[test]
fn camera_viewport_is_sixteen_by_nine() {
    let c = Camera::new();
    assert_eq!(c.origin, Vec3::new(0, 0, 0));
    assert_eq!(c.vertical, Vec3::new(0, fx(2), 0));
    assert_eq!(c.horizontal, Vec3::new(233016, 0, 0));
    assert_eq!(c.lower_left_corner, Vec3::new(-116508, -SCALE, -SCALE));
}

#[test]
fn camera_center_ray_goes_forward() {
    let c = Camera::new();
    let r = c.get_ray(SCALE / 2, SCALE / 2);
    assert_eq!(r.origin, Vec3::new(0, 0, 0));
    // Through the middle of the viewport: straight down the axis.
    assert_eq!(r.dir.z, -SCALE);
    assert_eq!(r.dir.y, 0);
    assert_eq!(r.dir.x, 0);
}
