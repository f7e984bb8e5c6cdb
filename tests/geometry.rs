use ray_tracing_in_rust::fixed::{floor_div, sqrt_floor, ONE};
use ray_tracing_in_rust::point::{ball_candidate, disk_candidate, first_in_ball, first_in_disk, unit_candidate};
use ray_tracing_in_rust::ray::Ray;
use ray_tracing_in_rust::vec3::Vec3;
use rand::rngs::StdRng;
use rand::SeedableRng;

fn v(x: i64, y: i64, z: i64) -> Vec3 {
    Vec3::new(x, y, z)
}

#[test]
fn floor_div_rounds_down() {
    assert_eq!(floor_div(7, 2), 3);
    assert_eq!(floor_div(-7, 2), -4);
    assert_eq!(floor_div(-8, 2), -4);
    assert_eq!(floor_div(0, 5), 0);
}

#[test]
fn sqrt_floor_values() {
    assert_eq!(sqrt_floor(0), 0);
    assert_eq!(sqrt_floor(1), 1);
    assert_eq!(sqrt_floor(15), 3);
    assert_eq!(sqrt_floor(16), 4);
    assert_eq!(sqrt_floor(u128::MAX), u64::MAX);
}

#[test]
fn add_sub_neg() {
    let a = v(1, 2, 3);
    let b = v(10, 20, 30);
    assert_eq!(a.add(b), v(11, 22, 33));
    assert_eq!(a.sub(b), v(-9, -18, -27));
    assert_eq!(a.neg(), v(-1, -2, -3));
    let mut c = a;
    c.add_assign(b);
    assert_eq!(c, v(11, 22, 33));
}

#[test]
fn scale_div_mul() {
    let a = v(2 * ONE, -3 * ONE, ONE / 2);
    assert_eq!(a.scale(ONE / 2), v(ONE, -3 * ONE / 2, ONE / 4));
    assert_eq!(a.div(2 * ONE), v(ONE, -3 * ONE / 2, ONE / 4));
    assert_eq!(a.div(-ONE), v(-2 * ONE, 3 * ONE, -ONE / 2));
    // rounding is downwards, also for negative values
    assert_eq!(v(-1, 1, 0).scale(ONE / 2), v(-1, 0, 0));
    assert_eq!(a.mul(v(ONE, 2 * ONE, 0)), v(2 * ONE, -6 * ONE, 0));
    let mut m = a;
    m.mul_assign(2 * ONE);
    assert_eq!(m, v(4 * ONE, -6 * ONE, ONE));
}

#[test]
fn dot_cross_length() {
    let a = v(ONE, 2 * ONE, 3 * ONE);
    let b = v(4 * ONE, -5 * ONE, 6 * ONE);
    assert_eq!(a.dot(&b), 12 * ONE);
    assert_eq!(a.length_squared(), 14 * ONE);
    assert_eq!(v(3 * ONE, 4 * ONE, 0).length(), 5 * ONE);
    assert_eq!(v(0, 0, 0).length(), 0);
    assert_eq!(a.cross(&b), v(27 * ONE, 6 * ONE, -13 * ONE));
    assert_eq!(v(ONE, 0, 0).cross(&v(0, ONE, 0)), v(0, 0, ONE));
}

#[test]
fn normalize_and_accessors() {
    let n = v(3 * ONE, 0, -4 * ONE).normalize();
    assert_eq!(n, v(3 * ONE / 5, 0, -4 * ONE / 5 - 1));
    assert_eq!(v(0, 7, 0).normalize(), v(0, ONE, 0));
    let a = v(1, 2, 3);
    assert_eq!((a.x(), a.y(), a.z()), (1, 2, 3));
}

#[test]
fn near_zero_only_at_zero() {
    assert!(v(0, 0, 0).near_zero());
    assert!(!v(0, 1, 0).near_zero());
    assert!(!v(-1, 0, 0).near_zero());
}

#[test]
fn reflect_about_normal() {
    let d = v(ONE, -ONE, 0);
    assert_eq!(d.reflect(&v(0, ONE, 0)), v(ONE, ONE, 0));
    assert_eq!(v(0, 0, -ONE).reflect(&v(0, 0, ONE)), v(0, 0, ONE));
}

#[test]
fn refract_straight_through_and_bent() {
    // along the normal nothing bends, whatever the ratio
    assert_eq!(v(0, -2 * ONE, 0).refract(&v(0, ONE, 0), 2 * ONE / 3), v(0, -ONE, 0));
    // at 45 degrees with ratio 1 the direction is kept
    let d = v(ONE, -ONE, 0);
    let r = d.refract(&v(0, ONE, 0), ONE);
    assert!((r.x - 46341).abs() <= 2 && (r.y + 46341).abs() <= 2 && r.z == 0);
    // a ratio below 1 bends toward the normal
    let r = d.refract(&v(0, ONE, 0), ONE / 2);
    assert!(r.x < 46341 / 2 + 2 && r.x > 0 && r.y < -ONE * 9 / 10);
}

#[test]
fn random_vectors_stay_in_range() {
    let mut rng = StdRng::seed_from_u64(3);
    let mut seen_other = false;
    for _ in 0..200 {
        let a = Vec3::random(&mut rng);
        assert!(0 <= a.x && a.x < ONE && 0 <= a.y && a.y < ONE && 0 <= a.z && a.z < ONE);
        let b = Vec3::random_in_range(&mut rng, -5, 5);
        assert!(-5 <= b.x && b.x < 5 && -5 <= b.y && b.y < 5 && -5 <= b.z && b.z < 5);
        if b.x != -5 || b.y != -5 {
            seen_other = true;
        }
    }
    assert!(seen_other);
}

#[test]
fn random_points_in_ball_and_disk() {
    let mut rng = StdRng::seed_from_u64(11);
    let one_sq = (ONE as i128) * (ONE as i128);
    let mut nonzero = 0;
    for _ in 0..500 {
        let p = Vec3::random_in_unit_sphere(&mut rng);
        let n = (p.x as i128).pow(2) + (p.y as i128).pow(2) + (p.z as i128).pow(2);
        assert!(n < one_sq);
        let d = Vec3::random_in_unit_disk(&mut rng);
        assert_eq!(d.z, 0);
        assert!((d.x as i128).pow(2) + (d.y as i128).pow(2) < one_sq);
        if d.x != 0 {
            nonzero += 1;
        }
        let u = Vec3::random_unit_vector(&mut rng);
        let l = (u.x as i128).pow(2) + (u.y as i128).pow(2) + (u.z as i128).pow(2);
        assert!(l > one_sq * 99 / 100 && l < one_sq * 101 / 100);
    }
    assert!(nonzero > 400);
}

#[test]
fn ray_at_parameter() {
    let r = Ray::new(v(ONE, 2 * ONE, 3 * ONE), v(0, 3 * ONE, 4 * ONE));
    assert_eq!(r.origin(), v(ONE, 2 * ONE, 3 * ONE));
    assert_eq!(r.direction(), v(0, 3 * ONE, 4 * ONE));
    assert_eq!(r.at(0), r.origin());
    let p = r.at(2 * ONE);
    assert_eq!(p, v(ONE, 8 * ONE, 11 * ONE));
    // distance |t| * L = 2 * 5
    assert_eq!(p.sub(r.origin()).length(), 10 * ONE);
    assert_eq!(r.at(-ONE), v(ONE, -ONE, -ONE));
    assert_eq!(r.at_checked(2 * ONE), Some(p));
    assert_eq!(r.at_checked(i64::MAX), None);
    assert!(r.is_valid());
    assert!(!Ray::new(v(0, 0, 0), v(0, 0, 0)).is_valid());
}

#[test]
fn rejection_candidates() {
    assert_eq!(ball_candidate(ONE / 2, ONE / 2, ONE / 2), Some(v(ONE / 2, ONE / 2, ONE / 2)));
    assert_eq!(ball_candidate(ONE, 0, 0), None);
    assert_eq!(ball_candidate(-ONE / 2, -ONE / 2, -3 * ONE / 4), None);
    assert_eq!(disk_candidate(0, ONE - 1), Some(v(0, ONE - 1, 0)));
    assert_eq!(disk_candidate(3 * ONE / 4, 3 * ONE / 4), None);
    assert_eq!(unit_candidate(v(0, 0, 0)), None);
    assert_eq!(unit_candidate(v(0, 5, 0)), Some(v(0, ONE, 0)));
}

#[test]
fn componentwise_division() {
    let a = v(ONE, -3 * ONE, ONE / 2);
    assert_eq!(a.div_elem(v(2 * ONE, ONE, -ONE)), v(ONE / 2, -3 * ONE, -ONE / 2));
    assert_eq!(v(1, 0, 0).div_elem(v(3 * ONE, 1, 1)), v(0, 0, 0));
}

#[test]
fn normalize_short_vectors_to_unit_length() {
    let one_sq = (ONE as i128) * (ONE as i128);
    for p in [v(1, 1, 0), v(1, 0, 0), v(-1, 2, 3), v(5, -7, 1), v(123456, -98765, 4321)] {
        let n = p.normalize();
        let l = (n.x as i128).pow(2) + (n.y as i128).pow(2) + (n.z as i128).pow(2);
        assert!(l > one_sq - 8 * ONE as i128 && l <= one_sq + 6 * ONE as i128 + 8);
    }
    assert_eq!(v(1, 1, 0).normalize(), v(46341, 46341, 0));
    assert_eq!(v(-1, 0, 0).normalize(), v(-ONE, 0, 0));
}

#[test]
fn first_draw_inside() {
    let draws = vec![v(ONE - 1, ONE - 1, 0), v(-ONE, 0, 0), v(ONE / 4, -ONE / 4, ONE / 2), v(0, 0, 0)];
    assert_eq!(first_in_ball(&draws), Some(v(ONE / 4, -ONE / 4, ONE / 2)));
    assert_eq!(first_in_ball(&vec![v(ONE, 0, 0)]), None);
    let pairs = vec![(ONE - 1, ONE - 1), (3, -4), (0, 0)];
    assert_eq!(first_in_disk(&pairs), Some(v(3, -4, 0)));
    assert_eq!(first_in_disk(&vec![]), None);
}
