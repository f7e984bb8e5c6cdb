use rand::rngs::StdRng;
use rand::SeedableRng;
use ray_tracing_in_rust::camera::Camera;
use ray_tracing_in_rust::fixed::ONE;
use ray_tracing_in_rust::hittable::{HitRecord, Hittable, HittableList};
use ray_tracing_in_rust::material::{Dielectric, Lambertian, Material, MaterialKind, Metal};
use ray_tracing_in_rust::ray::Ray;
use ray_tracing_in_rust::render::{
    background_color, channel_byte, color_bytes, ray_color, render_pixel, HIT_EPSILON, SKY_G,
    SKY_R,
};
use ray_tracing_in_rust::sphere::Sphere;
use ray_tracing_in_rust::vec3::Vec3;

fn v(x: i64, y: i64, z: i64) -> Vec3 {
    Vec3::new(x, y, z)
}

fn gray() -> MaterialKind {
    MaterialKind::Lambertian(Lambertian::new(v(ONE / 2, ONE / 2, ONE / 2)))
}

fn unit_sphere_ahead() -> Sphere {
    Sphere::new(v(0, 0, -3 * ONE), ONE, gray())
}

#[test]
fn sphere_hit_aimed_at_center() {
    let s = unit_sphere_ahead();
    let r = Ray::new(v(0, 0, 0), v(0, 0, -ONE));
    let rec = s.hit(&r, HIT_EPSILON, i64::MAX).unwrap();
    // distance to center 3, radius 1
    assert_eq!(rec.t, 2 * ONE);
    assert_eq!(rec.p, v(0, 0, -2 * ONE));
    assert_eq!(rec.normal, v(0, 0, ONE));
    assert!(rec.front_face);
    // a longer direction gives the parameter in its own units
    let r2 = Ray::new(v(0, 0, 0), v(0, 0, -2 * ONE));
    assert_eq!(s.hit(&r2, HIT_EPSILON, i64::MAX).unwrap().t, ONE);
}

#[test]
fn sphere_miss_and_window() {
    let s = unit_sphere_ahead();
    // passes 2 units beside the center
    let r = Ray::new(v(2 * ONE, 0, 0), v(0, 0, -ONE));
    assert!(s.hit(&r, HIT_EPSILON, i64::MAX).is_none());
    // the hit lies beyond the window
    let r = Ray::new(v(0, 0, 0), v(0, 0, -ONE));
    assert!(s.hit(&r, HIT_EPSILON, ONE).is_none());
    // pointing away
    let r = Ray::new(v(0, 0, 0), v(0, 0, ONE));
    assert!(s.hit(&r, HIT_EPSILON, i64::MAX).is_none());
}

#[test]
fn sphere_hit_from_inside_takes_far_root() {
    let s = unit_sphere_ahead();
    let r = Ray::new(v(0, 0, -3 * ONE), v(0, 0, -ONE));
    let rec = s.hit(&r, HIT_EPSILON, i64::MAX).unwrap();
    assert_eq!(rec.t, ONE);
    assert_eq!(rec.p, v(0, 0, -4 * ONE));
    assert!(!rec.front_face);
    // the normal is turned against the ray: it points inward
    assert_eq!(rec.normal, v(0, 0, ONE));
}

#[test]
fn normal_orientation_signs() {
    let s = unit_sphere_ahead();
    let outside = Ray::new(v(ONE / 3, ONE / 5, 0), v(0, 0, -ONE));
    let rec = s.hit(&outside, HIT_EPSILON, i64::MAX).unwrap();
    assert!(rec.front_face);
    assert!(outside.direction().dot(&rec.normal) < 0);
    let inside = Ray::new(v(ONE / 3, ONE / 5, -3 * ONE), v(ONE / 7, 0, -ONE));
    let rec = s.hit(&inside, HIT_EPSILON, i64::MAX).unwrap();
    assert!(!rec.front_face);
    assert!(inside.direction().dot(&rec.normal) <= 0);
}

#[test]
fn set_face_normal_orients() {
    let r = Ray::new(v(0, 0, 0), v(0, 0, -ONE));
    let mut rec = HitRecord { p: v(0, 0, -ONE), normal: v(0, 0, 0), mat: gray(), t: ONE, front_face: false };
    rec.set_face_normal(&r, &v(0, 0, ONE));
    assert!(rec.front_face);
    assert_eq!(rec.normal, v(0, 0, ONE));
    rec.set_face_normal(&r, &v(0, 0, -ONE));
    assert!(!rec.front_face);
    assert_eq!(rec.normal, v(0, 0, ONE));
}

#[test]
fn list_reports_nearest_hit() {
    let mut world = HittableList::new();
    assert!(world.hit(&Ray::new(v(0, 0, 0), v(0, 0, -ONE)), HIT_EPSILON, i64::MAX).is_none());
    world.add(Sphere::new(v(0, 0, -10 * ONE), ONE, gray()));
    world.add(Sphere::new(v(0, 0, -3 * ONE), ONE, gray()));
    world.add(Sphere::new(v(0, 0, -6 * ONE), ONE, gray()));
    assert_eq!(world.objects.len(), 3);
    let r = Ray::new(v(0, 0, 0), v(0, 0, -ONE));
    let rec = world.hit(&r, HIT_EPSILON, i64::MAX).unwrap();
    assert_eq!(rec.t, 2 * ONE);
    let r = Ray::new(v(0, 0, -20 * ONE), v(0, 0, ONE));
    let rec = world.hit(&r, HIT_EPSILON, i64::MAX).unwrap();
    assert_eq!(rec.t, 9 * ONE);
    assert!(world.hit(&Ray::new(v(5 * ONE, 0, 0), v(0, 0, -ONE)), HIT_EPSILON, i64::MAX).is_none());
}

fn record_on(normal: Vec3, front_face: bool, mat: MaterialKind) -> HitRecord {
    HitRecord { p: v(0, 0, -ONE), normal, mat, t: ONE, front_face }
}

#[test]
fn lambertian_always_scatters() {
    let mut rng = StdRng::seed_from_u64(5);
    let m = Lambertian::new(v(ONE / 2, ONE / 4, ONE));
    let r = Ray::new(v(0, 0, 0), v(0, 0, -ONE));
    for _ in 0..100 {
        let rec = record_on(v(0, 0, ONE), true, MaterialKind::Lambertian(m));
        let (out, att) = m.scatter(&r, &rec, &mut rng).unwrap();
        assert_eq!(out.origin(), rec.p);
        assert_eq!(att, v(ONE / 2, ONE / 4, ONE));
        // normal plus a unit vector stays in the half-space of the normal
        assert!(out.direction().z >= -1);
    }
}

#[test]
fn metal_absorbs_on_back_face() {
    let mut rng = StdRng::seed_from_u64(6);
    let m = Metal::new(v(ONE, ONE, ONE), ONE / 4);
    let r = Ray::new(v(0, 0, 0), v(0, 0, -ONE));
    let front = record_on(v(0, 0, ONE), true, MaterialKind::Metal(m));
    assert!(m.scatter(&r, &front, &mut rng).is_some());
    let back = record_on(v(0, 0, ONE), false, MaterialKind::Metal(m));
    assert!(m.scatter(&r, &back, &mut rng).is_none());
}

#[test]
fn metal_fuzz_is_clamped() {
    assert_eq!(Metal::new(v(0, 0, 0), 3 * ONE).fuzz, ONE);
    assert_eq!(Metal::new(v(0, 0, 0), -ONE).fuzz, 0);
    assert_eq!(Metal::new(v(0, 0, 0), ONE / 3).fuzz, ONE / 3);
}

#[test]
fn mirror_reflects_straight_back() {
    let mut rng = StdRng::seed_from_u64(8);
    let mirror = Metal::new(v(ONE, ONE, ONE), 0);
    let s = Sphere::new(v(0, 0, -3 * ONE), ONE, MaterialKind::Metal(mirror));
    let r = Ray::new(v(0, 0, 0), v(0, 0, -ONE));
    let rec = s.hit(&r, HIT_EPSILON, i64::MAX).unwrap();
    let (out, att) = rec.mat.scatter(&r, &rec, &mut rng).unwrap();
    assert_eq!(out.direction(), r.direction().neg());
    assert_eq!(out.origin(), v(0, 0, -2 * ONE));
    assert_eq!(att, v(ONE, ONE, ONE));
}

#[test]
fn dielectric_always_scatters() {
    let mut rng = StdRng::seed_from_u64(9);
    let glass = Dielectric::new(3 * ONE / 2);
    let r = Ray::new(v(0, 0, 0), v(ONE / 3, 0, -ONE));
    let mut reflected = 0;
    let mut refracted = 0;
    for k in 0..200 {
        let rec = record_on(v(0, 0, ONE), k % 2 == 0, MaterialKind::Dielectric(glass));
        let (out, att) = glass.scatter(&r, &rec, &mut rng).unwrap();
        assert_eq!(att, v(ONE, ONE, ONE));
        if out.direction().z > 0 {
            reflected += 1;
        } else {
            refracted += 1;
        }
    }
    assert!(reflected > 0 && refracted > 0);
}

#[test]
fn dielectric_total_internal_reflection() {
    let mut rng = StdRng::seed_from_u64(10);
    let glass = Dielectric::new(3 * ONE / 2);
    // leaving the glass at a grazing angle: sin = 0.95, ratio 1.5
    let r = Ray::new(v(0, 0, 0), v(62259, 0, -20458));
    let rec = record_on(v(0, 0, ONE), false, MaterialKind::Dielectric(glass));
    for _ in 0..50 {
        let (out, _) = glass.scatter(&r, &rec, &mut rng).unwrap();
        assert_eq!(out.direction(), r.direction().reflect(&v(0, 0, ONE)));
    }
}

#[test]
fn schlick_reflectance_values() {
    // head-on: r0 = ((1 - 1.5) / 2.5)^2 = 0.04
    assert_eq!(Dielectric::reflectance(ONE, 3 * ONE / 2), 2621);
    // grazing: everything reflects
    assert_eq!(Dielectric::reflectance(0, 3 * ONE / 2), ONE);
    let mut last = Dielectric::reflectance(ONE, 3 * ONE / 2);
    let mut c = ONE;
    while c >= 0 {
        let r = Dielectric::reflectance(c, 3 * ONE / 2);
        assert!(r >= last);
        last = r;
        c -= 997;
    }
}

#[test]
fn depth_zero_is_black() {
    let mut rng = StdRng::seed_from_u64(1);
    let mut world = HittableList::new();
    world.add(unit_sphere_ahead());
    let r = Ray::new(v(0, 0, 0), v(0, 0, -ONE));
    assert_eq!(ray_color(&r, &world, 0, &mut rng), v(0, 0, 0));
    assert_eq!(ray_color(&r, &world, -3, &mut rng), v(0, 0, 0));
    assert_eq!(ray_color(&Ray::new(v(0, ONE, 0), v(0, ONE, 0)), &HittableList::new(), 0, &mut rng), v(0, 0, 0));
}

#[test]
fn background_gradient() {
    let mut rng = StdRng::seed_from_u64(1);
    let empty = HittableList::new();
    let up = Ray::new(v(0, 0, 0), v(0, 3 * ONE, 0));
    assert_eq!(ray_color(&up, &empty, 5, &mut rng), v(SKY_R, SKY_G, ONE));
    let down = Ray::new(v(0, 0, 0), v(0, -ONE, 0));
    assert_eq!(ray_color(&down, &empty, 5, &mut rng), v(ONE, ONE, ONE));
    let level = Ray::new(v(0, 0, 0), v(ONE, 0, 0));
    assert_eq!(background_color(&level), v(ONE * 3 / 4, 55705, ONE));
}

#[test]
fn invalid_ray_is_black() {
    let mut rng = StdRng::seed_from_u64(1);
    let empty = HittableList::new();
    assert_eq!(ray_color(&Ray::new(v(0, 0, 0), v(0, 0, 0)), &empty, 5, &mut rng), v(0, 0, 0));
}

fn pinhole() -> Camera {
    Camera::new(v(0, 0, 0), v(0, 0, -ONE), v(0, ONE, 0), 2 * ONE, 2 * ONE, 0, ONE).unwrap()
}

#[test]
fn camera_frame() {
    let cam = pinhole();
    assert_eq!(cam.w, v(0, 0, ONE));
    assert_eq!(cam.u, v(ONE, 0, 0));
    assert_eq!(cam.v, v(0, ONE, 0));
    assert_eq!(cam.horizontal, v(4 * ONE, 0, 0));
    assert_eq!(cam.vertical, v(0, 2 * ONE, 0));
    assert_eq!(cam.lower_left_corner, v(-2 * ONE, -ONE, -ONE));
    assert_eq!(cam.lens_radius, 0);
}

#[test]
fn camera_rejects_degenerate_view() {
    assert!(Camera::new(v(0, 0, 0), v(0, 0, 0), v(0, ONE, 0), 2 * ONE, ONE, 0, ONE).is_none());
    assert!(Camera::new(v(0, 0, 0), v(0, ONE, 0), v(0, ONE, 0), 2 * ONE, ONE, 0, ONE).is_none());
}

#[test]
fn camera_lens_offsets_origin() {
    let mut rng = StdRng::seed_from_u64(4);
    let cam = Camera::new(v(0, 0, 0), v(0, 0, -ONE), v(0, ONE, 0), 2 * ONE, 2 * ONE, ONE, ONE).unwrap();
    assert_eq!(cam.lens_radius, ONE / 2);
    let mut moved = false;
    for _ in 0..20 {
        let r = cam.get_ray(ONE / 2, ONE / 2, &mut rng);
        assert_eq!(r.origin().z, 0);
        assert!(r.origin().x.abs() <= ONE / 2 && r.origin().y.abs() <= ONE / 2);
        // every ray still passes through the focus point
        assert_eq!(r.origin().add(r.direction()), v(0, 0, -ONE));
        if r.origin() != v(0, 0, 0) {
            moved = true;
        }
    }
    assert!(moved);
}

#[test]
fn pinhole_scene_center_and_corners() {
    let mut rng = StdRng::seed_from_u64(2);
    let cam = pinhole();
    let mut world = HittableList::new();
    world.add(Sphere::new(v(0, 0, -ONE), ONE / 2, gray()));
    let center = cam.get_ray(ONE / 2, ONE / 2, &mut rng);
    assert_eq!(center.direction(), v(0, 0, -ONE));
    let rec = world.hit(&center, HIT_EPSILON, i64::MAX).unwrap();
    assert_eq!(rec.t, ONE / 2);
    assert_eq!(rec.normal, v(0, 0, ONE));
    let top_left = cam.get_ray(0, ONE, &mut rng);
    let bottom_left = cam.get_ray(0, 0, &mut rng);
    assert!(world.hit(&top_left, HIT_EPSILON, i64::MAX).is_none());
    assert!(world.hit(&bottom_left, HIT_EPSILON, i64::MAX).is_none());
    let top = ray_color(&top_left, &world, 50, &mut rng);
    let bottom = ray_color(&bottom_left, &world, 50, &mut rng);
    assert_eq!(top, background_color(&top_left));
    assert_eq!(bottom, background_color(&bottom_left));
    // the top is bluer than the bottom
    assert!(top.x < bottom.x && top.y < bottom.y && top.z == ONE && bottom.z == ONE);
}

fn diffuse_scene() -> HittableList {
    let mut world = HittableList::new();
    world.add(Sphere::new(v(0, -100 * ONE, -ONE), 100 * ONE - ONE / 2, gray()));
    world.add(Sphere::new(v(0, 0, -ONE), ONE / 2, gray()));
    world
}

#[test]
fn render_pixel_is_deterministic_for_a_seed() {
    let cam = pinhole();
    let world = diffuse_scene();
    let a = render_pixel(&cam, &world, 100, 40, 200, 100, 1000, 50, &mut StdRng::seed_from_u64(42));
    let b = render_pixel(&cam, &world, 100, 40, 200, 100, 1000, 50, &mut StdRng::seed_from_u64(42));
    assert_eq!(a, b);
}

#[test]
fn render_pixel_converges_across_seeds() {
    let cam = pinhole();
    let world = diffuse_scene();
    let a = render_pixel(&cam, &world, 100, 40, 200, 100, 1000, 50, &mut StdRng::seed_from_u64(1));
    let b = render_pixel(&cam, &world, 100, 40, 200, 100, 1000, 50, &mut StdRng::seed_from_u64(2));
    let tol = ONE / 20;
    assert!((a.x - b.x).abs() < tol && (a.y - b.y).abs() < tol && (a.z - b.z).abs() < tol);
    assert!(a.x > 0 && a.x < ONE);
}

#[test]
fn render_pixel_of_sky_is_background() {
    let cam = pinhole();
    let empty = HittableList::new();
    let c = render_pixel(&cam, &empty, 100, 99, 200, 100, 10, 50, &mut StdRng::seed_from_u64(3));
    assert!(c.z == ONE && c.x < ONE && c.x >= ONE / 2);
}

#[test]
fn gamma_bytes() {
    assert_eq!(channel_byte(0), 0);
    assert_eq!(channel_byte(-5), 0);
    assert_eq!(channel_byte(ONE), 255);
    assert_eq!(channel_byte(4 * ONE), 255);
    // sqrt(0.25) = 0.5 -> 128
    assert_eq!(channel_byte(ONE / 4), 128);
    assert_eq!(color_bytes(v(ONE / 4, 0, ONE)), (128, 0, 255));
}

#[test]
fn big_sphere_from_inside_reports_far_root() {
    let s = Sphere::new(v(4000 * ONE, 0, 0), 4000 * ONE, gray());
    let r = Ray::new(v(4000 * ONE, 0, 0), v(ONE, 0, 0));
    let rec = s.hit(&r, HIT_EPSILON, i64::MAX).unwrap();
    assert_eq!(rec.t, 4000 * ONE);
    assert_eq!(rec.p, v(8000 * ONE, 0, 0));
    assert!(!rec.front_face);
    assert_eq!(rec.normal, v(-ONE, 0, 0));
}

#[test]
fn far_root_when_window_skips_near_root() {
    let s = Sphere::new(v(4096 * ONE, 0, 0), 4000 * ONE, gray());
    let r = Ray::new(v(0, 0, 0), v(ONE, 0, 0));
    assert_eq!(s.hit(&r, HIT_EPSILON, i64::MAX).unwrap().t, 96 * ONE);
    let rec = s.hit(&r, 100 * ONE, i64::MAX).unwrap();
    assert_eq!(rec.t, 8096 * ONE);
    assert!(!rec.front_face);
}

#[test]
fn equally_near_hits_go_to_the_last_sphere() {
    let mirror = MaterialKind::Metal(Metal::new(v(ONE, ONE, ONE), 0));
    let mut world = HittableList::new();
    world.add(Sphere::new(v(0, 0, -3 * ONE), ONE, gray()));
    world.add(Sphere::new(v(0, 0, -3 * ONE), ONE, mirror));
    let rec = world.hit(&Ray::new(v(0, 0, 0), v(0, 0, -ONE)), HIT_EPSILON, i64::MAX).unwrap();
    assert_eq!(rec.mat, mirror);
}

#[test]
fn glass_direction_from_sample() {
    let glass = Dielectric::new(3 * ONE / 2);
    let r = Ray::new(v(0, 0, 0), v(ONE / 3, 0, -ONE));
    let rec = record_on(v(0, 0, ONE), true, MaterialKind::Dielectric(glass));
    // a sample above every reflectance refracts, a sample of 0 reflects
    let refracted = glass.direction(&r, &rec, ONE - 1);
    assert!(refracted.z < 0);
    assert_eq!(refracted, r.direction().refract(&v(0, 0, ONE), ONE * ONE / (3 * ONE / 2)));
    let reflected = glass.direction(&r, &rec, 0);
    assert_eq!(reflected, r.direction().reflect(&v(0, 0, ONE)));
}

#[test]
fn camera_rays_stay_in_world() {
    let mut rng = StdRng::seed_from_u64(12);
    let cam = Camera::new(v(13 * ONE, 2 * ONE, 3 * ONE), v(0, 0, 0), v(0, ONE, 0), 226981, 3 * ONE / 2, ONE / 10, 10 * ONE).unwrap();
    for (s, t) in [(0, 0), (ONE, ONE), (ONE / 2, ONE / 3), (2 * ONE - 1, 2 * ONE - 1)] {
        assert!(cam.get_ray(s, t, &mut rng).is_valid());
    }
}
