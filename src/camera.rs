//! A thin-lens camera that maps image-plane coordinates to rays.
use crate::fixed::{COORD_MAX, ONE, WORLD_MAX};
use crate::point::in_unit_ball;
use crate::ray::Ray;
use crate::vec3::{lemma_fx_mul_within, lemma_mul_within, lemma_div_within, within, Point3, Vec3};
use vstd::prelude::*;

verus! {

/// Largest magnitude of the viewport height and of the aspect ratio: 16.
pub const VIEW_MAX: i64 = 0x10_0000;

/// Largest magnitude of a component of the eye, the target, the focus
/// distance and the aperture: 512 units.
pub const EYE_MAX: i64 = 0x200_0000;

/// Largest magnitude of a component of the viewport's spans and of the lens
/// radius: 256 units.
pub const SPAN_MAX: i64 = 0x100_0000;

/// Largest magnitude of a component of the viewport's lower left corner:
/// 2048 units.
pub const CORNER_MAX: i64 = 0x800_0000;

#[derive(Clone, Copy, Debug, PartialEq, Eq, Structural)]
pub struct Camera {
    pub origin: Point3,
    pub lower_left_corner: Point3,
    pub horizontal: Vec3,
    pub vertical: Vec3,
    pub lens_radius: i64,
    pub u: Vec3,
    pub v: Vec3,
    pub w: Vec3,
}

/// The camera that the view parameters describe: the frame `(u, v, w)` with
/// `w` pointing back from the target, the viewport spanned by `horizontal`
/// and `vertical` at `focus_dist` in front of the eye, and half the aperture
/// as the lens radius.
pub open spec fn camera_spec(
    lookfrom: Point3,
    lookat: Point3,
    vup: Vec3,
    viewport_height: int,
    aspect_ratio: int,
    aperture: int,
    focus_dist: int,
) -> Camera {
    let w = lookfrom.minus(lookat).unit();
    let u = vup.crossed(w).unit();
    let v = w.crossed(u);
    let viewport_width = crate::vec3::fx_mul(aspect_ratio, viewport_height);
    let horizontal = u.scaled(viewport_width);
    let vertical = v.scaled(viewport_height);
    let lower_left_corner = lookfrom.minus(horizontal.divided(2 * ONE)).minus(
        vertical.divided(2 * ONE),
    ).minus(w.scaled(focus_dist));
    Camera {
        origin: lookfrom,
        lower_left_corner,
        horizontal,
        vertical,
        lens_radius: (aperture / 2) as i64,
        u,
        v,
        w,
    }
}

/// The frame of the view is defined: the eye is not at the target and the
/// up vector is not along the line of sight.
pub open spec fn view_defined(lookfrom: Point3, lookat: Point3, vup: Vec3) -> bool {
    !lookfrom.minus(lookat).is_zero() && !vup.crossed(lookfrom.minus(lookat).unit()).is_zero()
}

/// The ray through `(s, t)` of the viewport, leaving the lens at the point
/// `disk` of the unit disk scaled by the lens radius.
pub open spec fn ray_through(c: Camera, s: int, t: int, disk: Vec3) -> Ray {
    let rd = disk.scaled(c.lens_radius as int);
    let offset = c.u.scaled(rd.x as int).plus(c.v.scaled(rd.y as int));
    let light_origin = c.origin.plus(offset);
    Ray {
        orig: light_origin,
        dir: c.lower_left_corner.plus(c.horizontal.scaled(s)).plus(c.vertical.scaled(t)).minus(
            light_origin,
        ),
    }
}

impl Camera {
    pub open spec fn valid(self) -> bool {
        &&& self.origin.within(EYE_MAX as int)
        &&& self.lower_left_corner.within(CORNER_MAX as int)
        &&& self.horizontal.within(SPAN_MAX as int)
        &&& self.vertical.within(SPAN_MAX as int)
        &&& 0 <= self.lens_radius <= SPAN_MAX
        &&& self.u.unit_bounded()
        &&& self.v.within(3 * ONE)
    }

    /// The camera of the given view, with `viewport_height = 2 tan(vfov / 2)`;
    /// `None` where the view is not defined.
    pub fn new(
        lookfrom: Point3,
        lookat: Point3,
        vup: Vec3,
        viewport_height: i64,
        aspect_ratio: i64,
        aperture: i64,
        focus_dist: i64,
    ) -> (r: Option<Camera>)
        requires
            lookfrom.within(EYE_MAX as int),
            lookat.within(EYE_MAX as int),
            vup.within(WORLD_MAX as int),
            within(viewport_height as int, VIEW_MAX as int),
            within(aspect_ratio as int, VIEW_MAX as int),
            0 <= aperture <= EYE_MAX,
            within(focus_dist as int, EYE_MAX as int),
        ensures
            r is Some <==> view_defined(lookfrom, lookat, vup),
            r is Some ==> r.unwrap().valid(),
            r is Some ==> r.unwrap() == camera_spec(
                lookfrom,
                lookat,
                vup,
                viewport_height as int,
                aspect_ratio as int,
                aperture as int,
                focus_dist as int,
            ),
    {
        // define camera coordinates
        let back = lookfrom.sub(lookat);
        if back.x == 0 && back.y == 0 && back.z == 0 {
            return None;
        }
        let w = back.normalize();
        let side = vup.cross(&w);
        proof {
            lemma_cross_within(vup, w, WORLD_MAX as int);
        }
        if side.x == 0 && side.y == 0 && side.z == 0 {
            return None;
        }
        let u = side.normalize();
        let v = w.cross(&u);
        proof {
            lemma_cross_within(w, u, ONE as int);
            lemma_fx_mul_within(aspect_ratio as int, viewport_height as int, VIEW_MAX as int, VIEW_MAX as int, 0x100_0000);
        }
        let viewport_width = crate::vec3::scalar_mul(aspect_ratio, viewport_height);
        let horizontal = u.scale(viewport_width);
        proof {
            lemma_fx_mul_within(u.x as int, viewport_width as int, ONE as int, 0x100_0000, 0x100_0000);
            lemma_fx_mul_within(u.y as int, viewport_width as int, ONE as int, 0x100_0000, 0x100_0000);
            lemma_fx_mul_within(u.z as int, viewport_width as int, ONE as int, 0x100_0000, 0x100_0000);
            lemma_fx_mul_within(v.x as int, viewport_height as int, 3 * ONE, VIEW_MAX as int, 3 * VIEW_MAX);
            lemma_fx_mul_within(v.y as int, viewport_height as int, 3 * ONE, VIEW_MAX as int, 3 * VIEW_MAX);
            lemma_fx_mul_within(v.z as int, viewport_height as int, 3 * ONE, VIEW_MAX as int, 3 * VIEW_MAX);
            lemma_fx_mul_within(w.x as int, focus_dist as int, ONE as int, EYE_MAX as int, EYE_MAX as int);
            lemma_fx_mul_within(w.y as int, focus_dist as int, ONE as int, EYE_MAX as int, EYE_MAX as int);
            lemma_fx_mul_within(w.z as int, focus_dist as int, ONE as int, EYE_MAX as int, EYE_MAX as int);
        }
        let vertical = v.scale(viewport_height);
        let half_h = horizontal.div(2 * ONE);
        let half_v = vertical.div(2 * ONE);
        proof {
            lemma_half_within(horizontal.x as int, 0x100_0000);
            lemma_half_within(horizontal.y as int, 0x100_0000);
            lemma_half_within(horizontal.z as int, 0x100_0000);
            lemma_half_within(vertical.x as int, 3 * VIEW_MAX);
            lemma_half_within(vertical.y as int, 3 * VIEW_MAX);
            lemma_half_within(vertical.z as int, 3 * VIEW_MAX);
        }
        let lower_left_corner = lookfrom.sub(half_h).sub(half_v).sub(w.scale(focus_dist));
        let lens_radius: i64 = aperture / 2;
        Some(Camera { origin: lookfrom, lower_left_corner, horizontal, vertical, lens_radius, u, v, w })
    }

    /// The ray through the point `(s, t)` of the viewport, `(0, 0)` being its
    /// lower left corner and `(1, 1)` its upper right one, leaving from a
    /// random point of the lens.
    pub fn get_ray(&self, s: i64, t: i64, rng: &mut rand::rngs::StdRng) -> (r: Ray)
        requires
            self.valid(),
            within(s as int, 2 * ONE),
            within(t as int, 2 * ONE),
        ensures
            exists|disk: Vec3| disk.z == 0 && in_unit_ball(disk) && r == ray_through(*self, s as int, t as int, disk),
            r.orig.within(WORLD_MAX as int),
            r.dir.within(WORLD_MAX as int),
    {
        let disk = Vec3::random_in_unit_disk(rng);
        proof {
            lemma_fx_mul_within(disk.x as int, self.lens_radius as int, ONE as int, SPAN_MAX as int, SPAN_MAX as int);
            lemma_fx_mul_within(disk.y as int, self.lens_radius as int, ONE as int, SPAN_MAX as int, SPAN_MAX as int);
            lemma_fx_mul_within(disk.z as int, self.lens_radius as int, ONE as int, SPAN_MAX as int, SPAN_MAX as int);
        }
        let rd = disk.scale(self.lens_radius);
        proof {
            lemma_fx_mul_within(self.u.x as int, rd.x as int, ONE as int, SPAN_MAX as int, SPAN_MAX as int);
            lemma_fx_mul_within(self.u.y as int, rd.x as int, ONE as int, SPAN_MAX as int, SPAN_MAX as int);
            lemma_fx_mul_within(self.u.z as int, rd.x as int, ONE as int, SPAN_MAX as int, SPAN_MAX as int);
            lemma_fx_mul_within(self.v.x as int, rd.y as int, 3 * ONE, SPAN_MAX as int, 3 * SPAN_MAX);
            lemma_fx_mul_within(self.v.y as int, rd.y as int, 3 * ONE, SPAN_MAX as int, 3 * SPAN_MAX);
            lemma_fx_mul_within(self.v.z as int, rd.y as int, 3 * ONE, SPAN_MAX as int, 3 * SPAN_MAX);
            lemma_fx_mul_within(self.horizontal.x as int, s as int, SPAN_MAX as int, 2 * ONE, 2 * SPAN_MAX);
            lemma_fx_mul_within(self.horizontal.y as int, s as int, SPAN_MAX as int, 2 * ONE, 2 * SPAN_MAX);
            lemma_fx_mul_within(self.horizontal.z as int, s as int, SPAN_MAX as int, 2 * ONE, 2 * SPAN_MAX);
            lemma_fx_mul_within(self.vertical.x as int, t as int, SPAN_MAX as int, 2 * ONE, 2 * SPAN_MAX);
            lemma_fx_mul_within(self.vertical.y as int, t as int, SPAN_MAX as int, 2 * ONE, 2 * SPAN_MAX);
            lemma_fx_mul_within(self.vertical.z as int, t as int, SPAN_MAX as int, 2 * ONE, 2 * SPAN_MAX);
        }
        let offset = self.u.scale(rd.x()).add(self.v.scale(rd.y()));
        let light_origin = self.origin.add(offset);
        let target = self.lower_left_corner.add(self.horizontal.scale(s)).add(self.vertical.scale(t));
        Ray::new(light_origin, target.sub(light_origin))
    }
}

/// Half of a value within `m` lies within `m / 2 + 1`, and within `m`.
proof fn lemma_half_within(a: int, m: int)
    requires
        within(a, m),
        0 <= m <= COORD_MAX,
    ensures
        within(crate::vec3::fx_div(a, 2 * ONE), m),
{
    let one = ONE as int;
    assert(a * one == (2 * one) * (a / 2) + (a % 2) * one) by (nonlinear_arith)
        requires
            a == 2 * (a / 2) + a % 2,
    ;
    vstd::arithmetic::div_mod::lemma_fundamental_div_mod(a, 2);
    vstd::arithmetic::div_mod::lemma_fundamental_div_mod_converse(a * one, 2 * one, a / 2, (a % 2) * one);
}

/// The cross product of a vector within `m` and one within `[-1, 1]` lies
/// within `3 m`.
proof fn lemma_cross_within(a: Vec3, b: Vec3, m: int)
    requires
        a.within(m),
        b.unit_bounded(),
        ONE <= m <= WORLD_MAX,
    ensures
        a.crossed(b).within(3 * m),
{
    let one = ONE as int;
    lemma_mul_within(a.y as int, b.z as int, m, one);
    lemma_mul_within(a.z as int, b.y as int, m, one);
    lemma_mul_within(a.z as int, b.x as int, m, one);
    lemma_mul_within(a.x as int, b.z as int, m, one);
    lemma_mul_within(a.x as int, b.y as int, m, one);
    lemma_mul_within(a.y as int, b.x as int, m, one);
    lemma_div_within(a.y * b.z - a.z * b.y, 2 * m * one, one);
    lemma_div_within(a.z * b.x - a.x * b.z, 2 * m * one, one);
    lemma_div_within(a.x * b.y - a.y * b.x, 2 * m * one, one);
    vstd::arithmetic::div_mod::lemma_div_multiples_vanish(2 * m, one);
    assert(one * (2 * m) == 2 * m * one) by (nonlinear_arith);
}

} // verus!
