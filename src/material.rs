//! How light scatters off a surface: diffuse, metallic and transparent
//! materials.
use crate::fixed::{isqrt, sqrt_floor, ONE, ONE_SQ};
use crate::hittable::HitRecord;
use crate::point::{in_unit_ball, is_unit_sample};
use crate::random::random_range;
use crate::ray::Ray;
use crate::vec3::{
    dot_exact, dot_spec, fx_div, fx_mul, lemma_div_within, lemma_fx_mul_within, lemma_mul_within, lemma_unit_component,
    scalar_div, scalar_mul, within, Color, Vec3, ETA_MAX,
};
use vstd::prelude::*;

verus! {

/// The scattering protocol: given an incoming ray and the hit it made,
/// either absorb the ray or send out a new one from the hit point with an
/// attenuation.
pub trait Material {
    spec fn wf(&self) -> bool;

    /// The ray is absorbed on this hit.
    spec fn absorbs(&self, rec: HitRecord) -> bool;

    /// The color factor of a scattered ray.
    spec fn attenuation(&self) -> Color;

    /// `dir` is a direction that `r_in` can be scattered into at `rec`.
    spec fn scatters_to(&self, r_in: Ray, rec: HitRecord, dir: Vec3) -> bool;

    fn scatter(&self, r_in: &Ray, rec: &HitRecord, rng: &mut rand::rngs::StdRng) -> (r: Option<(Ray, Color)>)
        requires
            self.wf(),
            r_in.wf(),
            rec.wf(),
        ensures
            r is None <==> self.absorbs(*rec),
            r is Some ==> r.unwrap().0.orig == rec.p && r.unwrap().1 == self.attenuation(),
            r is Some ==> self.scatters_to(*r_in, *rec, r.unwrap().0.dir),
    ;
}

/// A color is a fraction of full intensity in each channel.
pub open spec fn is_fraction(c: Color) -> bool {
    0 <= c.x <= ONE && 0 <= c.y <= ONE && 0 <= c.z <= ONE
}

/// Diffuse reflection.
#[derive(Clone, Copy, Debug, PartialEq, Eq, Structural)]
pub struct Lambertian {
    pub albedo: Color,
}

/// The direction of a diffuse bounce: the normal plus a random unit vector,
/// or the normal alone where the two nearly cancel.
pub open spec fn lambert_direction(normal: Vec3, u: Vec3) -> Vec3 {
    if normal.plus(u).is_near_zero() {
        normal
    } else {
        normal.plus(u)
    }
}

impl Lambertian {
    pub open spec fn valid(self) -> bool {
        is_fraction(self.albedo)
    }

    pub fn new(albedo: Color) -> (r: Lambertian)
        ensures
            r.albedo == albedo,
    {
        Lambertian { albedo }
    }
}

impl Material for Lambertian {
    open spec fn wf(&self) -> bool {
        self.valid()
    }

    open spec fn absorbs(&self, rec: HitRecord) -> bool {
        false
    }

    open spec fn attenuation(&self) -> Color {
        self.albedo
    }

    open spec fn scatters_to(&self, r_in: Ray, rec: HitRecord, dir: Vec3) -> bool {
        exists|u: Vec3| is_unit_sample(u) && dir == lambert_direction(rec.normal, u)
    }

    fn scatter(&self, r_in: &Ray, rec: &HitRecord, rng: &mut rand::rngs::StdRng) -> (r: Option<(Ray, Color)>)
        ensures
            r is Some,
            r.unwrap().0.wf(),
    {
        let u = Vec3::random_unit_vector(rng);
        let mut scatter_direction = rec.normal.add(u);
        if scatter_direction.near_zero() {
            scatter_direction = rec.normal;
        }
        Some((Ray::new(rec.p, scatter_direction), self.albedo))
    }
}

/// Specular reflection, blurred by `fuzz`.
#[derive(Clone, Copy, Debug, PartialEq, Eq, Structural)]
pub struct Metal {
    pub albedo: Color,
    pub fuzz: i64,
}

impl Metal {
    pub open spec fn valid(self) -> bool {
        is_fraction(self.albedo) && 0 <= self.fuzz <= ONE
    }

    /// A metal of the given color; `fuzz` is clamped to `[0, 1]`.
    pub fn new(albedo: Color, fuzz: i64) -> (r: Metal)
        ensures
            r.albedo == albedo,
            r.fuzz == (if fuzz < 0 {
                0
            } else if fuzz < ONE {
                fuzz
            } else {
                ONE
            }),
    {
        let f: i64 = if fuzz < 0 {
            0
        } else if fuzz < ONE {
            fuzz
        } else {
            ONE
        };
        Metal { albedo, fuzz: f }
    }
}

impl Material for Metal {
    open spec fn wf(&self) -> bool {
        self.valid()
    }

    open spec fn absorbs(&self, rec: HitRecord) -> bool {
        !rec.front_face
    }

    open spec fn attenuation(&self) -> Color {
        self.albedo
    }

    /// The mirror direction, moved by `fuzz` times a point of the unit ball.
    open spec fn scatters_to(&self, r_in: Ray, rec: HitRecord, dir: Vec3) -> bool {
        exists|u: Vec3|
            in_unit_ball(u) && dir == r_in.dir.reflected(rec.normal).plus(u.scaled(self.fuzz as int))
    }

    fn scatter(&self, r_in: &Ray, rec: &HitRecord, rng: &mut rand::rngs::StdRng) -> (r: Option<(Ray, Color)>) {
        let reflect_direction = r_in.direction().reflect(&rec.normal);
        let u = Vec3::random_in_unit_sphere(rng);
        let fuzzed = u.scale(self.fuzz);
        proof {
            lemma_mul_within(u.x as int, self.fuzz as int, ONE as int, ONE as int);
            lemma_mul_within(u.y as int, self.fuzz as int, ONE as int, ONE as int);
            lemma_mul_within(u.z as int, self.fuzz as int, ONE as int, ONE as int);
            lemma_div_within(u.x * self.fuzz, ONE * ONE, ONE as int);
            lemma_div_within(u.y * self.fuzz, ONE * ONE, ONE as int);
            lemma_div_within(u.z * self.fuzz, ONE * ONE, ONE as int);
        }
        let scattered = Ray::new(rec.p, reflect_direction.add(fuzzed));
        if rec.front_face {
            Some((scattered, self.albedo))
        } else {
            None
        }
    }
}

/// A perfect mirror (`fuzz` 0) struck head-on, along its exact unit normal,
/// sends the ray straight back: the scattered direction is the reverse of
/// the incoming one.
pub proof fn lemma_mirror_reverses(m: Metal, r_in: Ray, rec: HitRecord, k: int, dir: Vec3)
    requires
        m.fuzz == 0,
        r_in.wf(),
        rec.normal.unit_bounded(),
        rec.normal.norm_sq() == ONE * ONE,
        r_in.dir.x == -k * rec.normal.x,
        r_in.dir.y == -k * rec.normal.y,
        r_in.dir.z == -k * rec.normal.z,
        m.scatters_to(r_in, rec, dir),
    ensures
        dir == r_in.dir.negated(),
{
    let d = r_in.dir;
    let n = rec.normal;
    let one = ONE as int;
    assert(d.x * n.x == -k * (n.x * n.x)) by (nonlinear_arith)
        requires
            d.x == -k * n.x,
    ;
    assert(d.y * n.y == -k * (n.y * n.y)) by (nonlinear_arith)
        requires
            d.y == -k * n.y,
    ;
    assert(d.z * n.z == -k * (n.z * n.z)) by (nonlinear_arith)
        requires
            d.z == -k * n.z,
    ;
    vstd::arithmetic::mul::lemma_mul_is_distributive_add(-k, n.x * n.x, n.y * n.y);
    vstd::arithmetic::mul::lemma_mul_is_distributive_add(-k, n.x * n.x + n.y * n.y, n.z * n.z);
    assert(dot_exact(d, n) == -k * (one * one));
    assert(dot_spec(d, n) == -k * one) by {
        vstd::arithmetic::div_mod::lemma_div_multiples_vanish(-k * one, one);
        assert(one * (-k * one) == -k * (one * one)) by (nonlinear_arith);
    }
    lemma_scaled_twice(n.x as int, k);
    lemma_scaled_twice(n.y as int, k);
    lemma_scaled_twice(n.z as int, k);
    assert(-2 * k * n.x == 2 * d.x && -2 * k * n.y == 2 * d.y && -2 * k * n.z == 2 * d.z) by (nonlinear_arith)
        requires
            d.x == -k * n.x,
            d.y == -k * n.y,
            d.z == -k * n.z,
    ;
    let q = n.scaled(2 * dot_spec(d, n));
    assert(q.x == 2 * d.x && q.y == 2 * d.y && q.z == 2 * d.z);
    assert(d.reflected(n) == d.negated());
    let u = choose|u: Vec3| in_unit_ball(u) && dir == d.reflected(n).plus(u.scaled(m.fuzz as int));
    assert(u.scaled(0) == (Vec3 { x: 0, y: 0, z: 0 }));
}

/// `floor(a (2 (-k ONE)) / ONE) = -2 k a`.
proof fn lemma_scaled_twice(a: int, k: int)
    ensures
        fx_mul(a, 2 * (-k * ONE)) == -2 * k * a,
{
    let one = ONE as int;
    assert(a * (2 * (-k * one)) == one * (-2 * k * a)) by (nonlinear_arith);
    vstd::arithmetic::div_mod::lemma_div_multiples_vanish(-2 * k * a, one);
}

/// Clear glass of refractive index `ir`.
#[derive(Clone, Copy, Debug, PartialEq, Eq, Structural)]
pub struct Dielectric {
    /// index of refraction
    pub ir: i64,
}

/// `x` to the fifth power in fixed point, as `x^4 * x` with `x^4 = (x^2)^2`.
pub open spec fn pow5(x: int) -> int {
    let x2 = fx_mul(x, x);
    fx_mul(fx_mul(x2, x2), x)
}

/// Schlick's approximation of the reflectance at a dielectric surface:
/// `r0 + (1 - r0) (1 - cos)^5` with `r0 = ((1 - n) / (1 + n))^2`.
pub open spec fn schlick(cosine: int, ref_idx: int) -> int {
    let r = fx_div(ONE - ref_idx, ONE + ref_idx);
    let r0 = fx_mul(r, r);
    r0 + fx_mul(ONE - r0, pow5(ONE - cosine))
}

/// The fixed-point product is monotone in both factors over nonnegative values.
proof fn lemma_fx_mul_monotone(a1: int, a2: int, b1: int, b2: int)
    requires
        0 <= a1 <= a2,
        0 <= b1 <= b2,
    ensures
        0 <= fx_mul(a1, b1) <= fx_mul(a2, b2),
{
    assert(0 <= a1 * b1 <= a2 * b2) by (nonlinear_arith)
        requires
            0 <= a1 <= a2,
            0 <= b1 <= b2,
    ;
    vstd::arithmetic::div_mod::lemma_div_is_ordered(a1 * b1, a2 * b2, ONE as int);
    vstd::arithmetic::div_mod::lemma_div_pos_is_pos(a1 * b1, ONE as int);
}

/// The fixed-point fifth power is monotone over nonnegative values.
proof fn lemma_pow5_monotone(x1: int, x2: int)
    requires
        0 <= x1 <= x2,
    ensures
        0 <= pow5(x1) <= pow5(x2),
{
    lemma_fx_mul_monotone(x1, x2, x1, x2);
    let s1 = fx_mul(x1, x1);
    let s2 = fx_mul(x2, x2);
    lemma_fx_mul_monotone(s1, s2, s1, s2);
    lemma_fx_mul_monotone(fx_mul(s1, s1), fx_mul(s2, s2), x1, x2);
}

/// Schlick's reflectance never decreases as the cosine of incidence
/// decreases over `[0, 1]`: grazing rays reflect at least as much.
pub proof fn lemma_schlick_monotone(cos_hi: int, cos_lo: int, ref_idx: int)
    requires
        0 <= cos_lo <= cos_hi <= ONE,
        0 < ref_idx <= ETA_MAX,
    ensures
        schlick(cos_hi, ref_idx) <= schlick(cos_lo, ref_idx),
{
    let r = fx_div(ONE - ref_idx, ONE + ref_idx);
    lemma_unit_component(ONE - ref_idx, ONE + ref_idx);
    lemma_fx_mul_within(r, r, ONE as int, ONE as int, ONE as int);
    let r0 = fx_mul(r, r);
    lemma_pow5_monotone(ONE - cos_hi, ONE - cos_lo);
    lemma_fx_mul_monotone(ONE - r0, ONE - r0, pow5(ONE - cos_hi), pow5(ONE - cos_lo));
}

/// The ratio of refractive indices seen by a ray: `1 / ir` when it enters
/// the glass through the front face, `ir` when it leaves it.
pub open spec fn refraction_ratio(front_face: bool, ir: int) -> int {
    if front_face {
        fx_div(ONE as int, ir)
    } else {
        ir
    }
}

/// The sine that goes with `cos`, or 0 where `cos` is not below 1.
pub open spec fn sine_of(cos: int) -> int {
    if ONE * ONE - cos * cos > 0 {
        isqrt(ONE * ONE - cos * cos)
    } else {
        0
    }
}

/// The cosine between the reversed incoming direction and the normal.
pub open spec fn incidence_cosine(dir: Vec3, normal: Vec3) -> int {
    -dot_spec(dir.unit(), normal)
}

/// Snell's law has no solution: the ray is totally reflected.
pub open spec fn cannot_refract(dir: Vec3, normal: Vec3, ratio: int) -> bool {
    ratio * sine_of(incidence_cosine(dir, normal)) > ONE * ONE
}

/// Where a ray goes through glass, given a sample drawn from `[0, 1)`:
/// it reflects when it cannot refract or when the reflectance exceeds the
/// sample, and refracts otherwise.
pub open spec fn glass_direction(dir: Vec3, normal: Vec3, ratio: int, sample: int) -> Vec3 {
    if cannot_refract(dir, normal, ratio) || schlick(incidence_cosine(dir, normal), ratio) > sample {
        dir.reflected(normal)
    } else {
        dir.refracted(normal, ratio)
    }
}

impl Dielectric {
    /// Where glass sends `r_in` at the hit `rec`, given a sample `sample` of
    /// `[0, 1)`: the mirror direction when the ray cannot refract or when the
    /// reflectance exceeds the sample, the refracted direction otherwise.
    pub fn direction(&self, r_in: &Ray, rec: &HitRecord, sample: i64) -> (d: Vec3)
        requires
            self.valid(),
            r_in.wf(),
            rec.wf(),
            0 <= sample < ONE,
        ensures
            d == glass_direction(
                r_in.dir,
                rec.normal,
                refraction_ratio(rec.front_face, self.ir as int),
                sample as int,
            ),
    {
        let ratio: i64 = if rec.front_face {
            scalar_div(ONE, self.ir)
        } else {
            self.ir
        };
        proof {
            if rec.front_face {
                lemma_div_within(ONE * ONE, ONE * ONE, self.ir as int);
                vstd::arithmetic::div_mod::lemma_div_is_ordered_by_denominator(ONE * ONE, 1, self.ir as int);
                vstd::arithmetic::div_mod::lemma_div_is_ordered(self.ir as int, ONE * ONE, self.ir as int);
                vstd::arithmetic::div_mod::lemma_div_multiples_vanish(1, self.ir as int);
            }
            assert(ratio == refraction_ratio(rec.front_face, self.ir as int));
        }
        let n = rec.normal;
        let unit = r_in.direction().normalize();
        let c = unit.dot(&n);
        proof {
            lemma_mul_within(unit.x as int, n.x as int, ONE as int, ONE as int);
            lemma_mul_within(unit.y as int, n.y as int, ONE as int, ONE as int);
            lemma_mul_within(unit.z as int, n.z as int, ONE as int, ONE as int);
            lemma_div_within(crate::vec3::dot_exact(unit, n), 3 * ONE * ONE, ONE as int);
            lemma_mul_within(c as int, c as int, 3 * ONE + 1, 3 * ONE + 1);
        }
        let cos_theta: i64 = -c;
        proof {
            assert(cos_theta * cos_theta == c * c) by (nonlinear_arith)
                requires
                    cos_theta == -c,
            ;
        }
        let rest: i128 = ONE_SQ - (cos_theta as i128) * (cos_theta as i128);
        let sin_theta: i64 = if rest > 0 {
            let s = sqrt_floor(rest as u128);
            proof {
                let si = s as int;
                assert(si <= ONE) by (nonlinear_arith)
                    requires
                        si * si <= rest,
                        rest <= ONE * ONE,
                        si >= 0,
                ;
            }
            s as i64
        } else {
            0
        };
        proof {
            lemma_mul_within(ratio as int, sin_theta as int, ETA_MAX as int, ONE as int);
        }
        let cannot: bool = (ratio as i128) * (sin_theta as i128) > ONE_SQ;
        let reflects: bool = cannot || Dielectric::reflectance(cos_theta, ratio) > sample;
        let direction = if reflects {
            r_in.direction().reflect(&n)
        } else {
            r_in.direction().refract(&n, ratio)
        };
        direction
    }

    pub open spec fn valid(self) -> bool {
        0 < self.ir <= ETA_MAX
    }

    pub fn new(ir: i64) -> (r: Dielectric)
        ensures
            r.ir == ir,
    {
        Dielectric { ir }
    }

    /// Schlick's approximation of the reflectance for the cosine `cosine` and
    /// the index ratio `ref_idx`.
    pub fn reflectance(cosine: i64, ref_idx: i64) -> (r: i64)
        requires
            within(cosine as int, 4 * ONE),
            0 < ref_idx <= ETA_MAX,
        ensures
            r == schlick(cosine as int, ref_idx as int),
    {
        let num: i64 = ONE - ref_idx;
        let den: i64 = ONE + ref_idx;
        proof {
            lemma_unit_component(num as int, den as int);
        }
        let q = scalar_div(num, den);
        let r0 = scalar_mul(q, q);
        proof {
            lemma_fx_mul_within(q as int, q as int, ONE as int, ONE as int, ONE as int);
        }
        let x: i64 = ONE - cosine;
        let x2 = scalar_mul(x, x);
        proof {
            lemma_fx_mul_within(x as int, x as int, 5 * ONE, 5 * ONE, 25 * ONE);
        }
        let x4 = scalar_mul(x2, x2);
        proof {
            lemma_fx_mul_within(x2 as int, x2 as int, 25 * ONE, 25 * ONE, 625 * ONE);
        }
        let x5 = scalar_mul(x4, x);
        proof {
            lemma_fx_mul_within(x4 as int, x as int, 625 * ONE, 5 * ONE, 3125 * ONE);
        }
        let tail = scalar_mul(ONE - r0, x5);
        proof {
            lemma_fx_mul_within((ONE - r0) as int, x5 as int, 2 * ONE, 3125 * ONE, 6250 * ONE);
        }
        r0 + tail
    }
}

impl Material for Dielectric {
    open spec fn wf(&self) -> bool {
        self.valid()
    }

    open spec fn absorbs(&self, rec: HitRecord) -> bool {
        false
    }

    open spec fn attenuation(&self) -> Color {
        Vec3 { x: ONE, y: ONE, z: ONE }
    }

    /// Reflected or refracted as `glass_direction` decides for some sample of
    /// `[0, 1)`.
    open spec fn scatters_to(&self, r_in: Ray, rec: HitRecord, dir: Vec3) -> bool {
        exists|sample: int|
            0 <= sample < ONE && dir == glass_direction(
                r_in.dir,
                rec.normal,
                refraction_ratio(rec.front_face, self.ir as int),
                sample,
            )
    }

    fn scatter(&self, r_in: &Ray, rec: &HitRecord, rng: &mut rand::rngs::StdRng) -> (r: Option<(Ray, Color)>)
        ensures
            r is Some,
    {
        let sample = random_range(rng, 0, ONE);
        let direction = self.direction(r_in, rec, sample);
        let r = Some((Ray::new(rec.p, direction), Vec3::new(ONE, ONE, ONE)));
        r
    }
}

/// One of the three materials.
#[derive(Clone, Copy, Debug, PartialEq, Eq, Structural)]
pub enum MaterialKind {
    Lambertian(Lambertian),
    Metal(Metal),
    Dielectric(Dielectric),
}

impl MaterialKind {
    pub open spec fn valid(self) -> bool {
        match self {
            MaterialKind::Lambertian(m) => m.valid(),
            MaterialKind::Metal(m) => m.valid(),
            MaterialKind::Dielectric(m) => m.valid(),
        }
    }
}

impl Material for MaterialKind {
    open spec fn wf(&self) -> bool {
        self.valid()
    }

    open spec fn scatters_to(&self, r_in: Ray, rec: HitRecord, dir: Vec3) -> bool {
        match *self {
            MaterialKind::Lambertian(m) => m.scatters_to(r_in, rec, dir),
            MaterialKind::Metal(m) => m.scatters_to(r_in, rec, dir),
            MaterialKind::Dielectric(m) => m.scatters_to(r_in, rec, dir),
        }
    }

    open spec fn absorbs(&self, rec: HitRecord) -> bool {
        match *self {
            MaterialKind::Lambertian(m) => m.absorbs(rec),
            MaterialKind::Metal(m) => m.absorbs(rec),
            MaterialKind::Dielectric(m) => m.absorbs(rec),
        }
    }

    open spec fn attenuation(&self) -> Color {
        match *self {
            MaterialKind::Lambertian(m) => m.attenuation(),
            MaterialKind::Metal(m) => m.attenuation(),
            MaterialKind::Dielectric(m) => m.attenuation(),
        }
    }

    fn scatter(&self, r_in: &Ray, rec: &HitRecord, rng: &mut rand::rngs::StdRng) -> (r: Option<(Ray, Color)>) {
        match self {
            MaterialKind::Lambertian(m) => m.scatter(r_in, rec, rng),
            MaterialKind::Metal(m) => m.scatter(r_in, rec, rng),
            MaterialKind::Dielectric(m) => m.scatter(r_in, rec, rng),
        }
    }
}

} // verus!
