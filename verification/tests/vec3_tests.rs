use raytracer::fixed::{fx_sqrt, SCALE};
use raytracer::rng::seed_rng;
use raytracer::vec3::{Vec3, BALL_MIN_LS};

fn fx(x: i64) -> i64 {
    x * SCALE
}

#[test]
fn test_add() {
    let v1 = Vec3::new(fx(1), fx(2), fx(3));
    let v2 = Vec3::new(fx(4), fx(5), fx(6));
    let v3 = v1.add(v2);
    assert_eq!(v3.x, fx(5));
    assert_eq!(v3.y, fx(7));
    assert_eq!(v3.z, fx(9));
}

#[test]
fn test_add_assign() {
    let mut v1 = Vec3::new(fx(1), fx(2), fx(3));
    let v2 = Vec3::new(fx(4), fx(5), fx(6));
    v1.add_assign(v2);
    assert_eq!(v1.x, fx(5));
    assert_eq!(v1.y, fx(7));
    assert_eq!(v1.z, fx(9));
}

#[test]
fn test_sub() {
    let v1 = Vec3::new(fx(1), fx(2), fx(3));
    let v2 = Vec3::new(fx(4), fx(1), fx(4));
    let v3 = v1.sub(v2);
    assert_eq!(v3.x, fx(-3));
    assert_eq!(v3.y, fx(1));
    assert_eq!(v3.z, fx(-1));
}

#[test]
fn test_neg() {
    let v1 = Vec3::new(fx(1), fx(2), fx(3));
    let v3 = v1.neg();
    assert_eq!(v3.x, fx(-1));
    assert_eq!(v3.y, fx(-2));
    assert_eq!(v3.z, fx(-3));
}

#[test]
fn test_mul_vec3() {
    let v1 = Vec3::new(fx(1), fx(2), fx(3));
    let k = fx(3);
    let v3 = v1.mul(k);
    assert_eq!(v3.x, fx(3));
    assert_eq!(v3.y, fx(6));
    assert_eq!(v3.z, fx(9));
}

#[test]
fn test_mul_f64() {
    let v1 = Vec3::new(fx(1), fx(2), fx(3));
    let k = fx(3);
    let v3 = v1.mul(k);
    assert_eq!(v3.x, fx(3));
    assert_eq!(v3.y, fx(6));
    assert_eq!(v3.z, fx(9));
}

#[test]
fn test_div_f64() {
    let v1 = Vec3::new(fx(1), fx(2), fx(3));
    let k = fx(2);
    let v3 = v1.div(k);
    assert_eq!(v3.x, SCALE / 2);
    assert_eq!(v3.y, SCALE);
    assert_eq!(v3.z, SCALE + SCALE / 2);
}

#[test]
fn test_length_squared() {
    let v1 = Vec3::new(fx(1), fx(2), fx(3));
    assert_eq!(v1.length_squared(), fx(14));
}

#[test]
fn test_length() {
    let v1 = Vec3::new(fx(1), fx(2), fx(3));
    let len_squared = v1.length_squared();
    assert_eq!(v1.length(), fx_sqrt(len_squared));
}

#[test]
fn test_unit_vector() {
    let v1 = Vec3::new(fx(2), fx(0), fx(0));
    let v2 = v1.unit_vector();
    assert_eq!(v2.x, fx(1));
    assert_eq!(v2.y, fx(0));
    assert_eq!(v2.z, fx(0));
}

#[test]
fn test_random() {
    let mut rng = seed_rng(7);
    let v1 = Vec3::random(&mut rng);
    assert!(0 <= v1.x && v1.x < SCALE);
    assert!(0 <= v1.y && v1.y < SCALE);
    assert!(0 <= v1.z && v1.z < SCALE);
}

#[test]
fn test_random_range() {
    let mut rng = seed_rng(8);
    let v1 = Vec3::random_range(&mut rng, fx(-2), fx(3));
    assert!(fx(-2) <= v1.x && v1.x < fx(3));
    assert!(fx(-2) <= v1.y && v1.y < fx(3));
    assert!(fx(-2) <= v1.z && v1.z < fx(3));
}

#[test]
fn test_random_in_unit_sphere() {
    let mut rng = seed_rng(9);
    let v1 = Vec3::random_in_unit_sphere(&mut rng);
    assert!(v1.length_squared() < SCALE);
    assert!(v1.length_squared() >= BALL_MIN_LS);
}

#[test]
fn dot() {
    let v1 = Vec3::new(fx(1), fx(2), fx(-3));
    let v2 = Vec3::new(fx(4), fx(-5), fx(6));
    assert_eq!(v1.dot(&v2), fx(-24));
}

#[test]
fn cross() {
    let v1 = Vec3::new(fx(1), fx(2), fx(-3));
    let v2 = Vec3::new(fx(4), fx(-5), fx(6));
    let v3 = v1.cross(&v2);
    assert_eq!(v3.x, fx(-3));
    assert_eq!(v3.y, fx(-18));
    assert_eq!(v3.z, fx(-13));
}

#[test]
fn add_then_sub_returns_original() {
    let v = Vec3::new(fx(7), fx(-11), 12345);
    let w = Vec3::new(fx(-4), 99999, fx(2));
    assert_eq!(v.add(w).sub(w), v);
}

#[test]
fn add_negation_is_zero() {
    let v = Vec3::new(fx(5), fx(-6), 54321);
    assert_eq!(v.add(v.neg()), Vec3::new(0, 0, 0));
}

#[test]
fn cross_is_anticommutative() {
    let v = Vec3::new(fx(1), fx(2), fx(-3));
    let w = Vec3::new(fx(4), fx(-5), fx(6));
    assert_eq!(w.cross(&v), v.cross(&w).neg());
}

#[test]
fn unit_vector_length_near_one() {
    let v = Vec3::new(fx(3), fx(4), fx(0));
    let u = v.unit_vector();
    let ls = u.length_squared();
    assert!(SCALE - 10 <= ls && ls <= SCALE + 5);
}

#[test]
fn random_unit_vector_length_near_one() {
    let mut rng = seed_rng(10);
    let u = Vec3::random_unit_vector(&mut rng);
    let ls = u.length_squared();
    assert!(SCALE - 10 <= ls && ls <= SCALE + 56);
}

#[test]
fn write_color_clamps_oversaturated_and_negative() {
    let c = Vec3::new(fx(5), fx(-1), 0);
    let (r, g, b) = c.write_color(1);
    assert_eq!(r, 255);
    assert_eq!(g, 0);
    assert_eq!(b, 0);
}

#[test]
fn write_color_averages_over_samples() {
    // Four samples of a full white pixel: averaging back to 1.0, whose
    // square root clamps at 0.999 and encodes as 255.
    let c = Vec3::new(4 * SCALE, 4 * SCALE, 4 * SCALE);
    let (r, g, b) = c.write_color(4);
    assert_eq!((r, g, b), (255, 255, 255));
}

#[test]
fn write_color_quarter_gray() {
    // 0.25 averaged over one sample: gamma lifts it to 0.5, which
    // encodes as 128.
    let c = Vec3::new(SCALE / 4, SCALE / 4, SCALE / 4);
    let (r, g, b) = c.write_color(1);
    assert_eq!((r, g, b), (128, 128, 128));
}

#[test]
fn direct_write_scales_by_nearly_256() {
    let c = Vec3::new(SCALE, 0, SCALE / 2);
    let (r, g, b) = c.write();
    assert_eq!((r, g, b), (255, 0, 127));
}
