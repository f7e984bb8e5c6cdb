//! The recursive radiance integrator and the per-pixel sampling driver.
use crate::camera::{ray_through, Camera};
use crate::point::in_unit_ball;
use crate::fixed::{isqrt, sqrt_floor, ONE};
use crate::random::random_range;
use crate::hittable::{HitRecord, HittableList};
use crate::material::{is_fraction, Material, MaterialKind};
use crate::ray::Ray;
use crate::vec3::{fx_mul, lemma_fx_mul_within, lemma_mul_within, scalar_mul, Color, Vec3};
use vstd::prelude::*;

verus! {

/// Hits closer than this are taken for the surface that the ray has just
/// left: 0.001 units.
pub const HIT_EPSILON: i64 = 66;

/// The sky color at the zenith, `(0.5, 0.7, 1.0)`.
pub const SKY_R: i64 = 32768;

pub const SKY_G: i64 = 45875;

pub const SKY_B: i64 = 65536;

pub open spec fn black() -> Color {
    Vec3 { x: 0, y: 0, z: 0 }
}

/// `(1 - t) * white + t * sky` in one channel.
pub open spec fn blend(sky: int, t: int) -> int {
    fx_mul(ONE as int, ONE - t) + fx_mul(sky, t)
}

/// The background seen along `dir`: white at the horizon below, blending to
/// sky blue at the zenith, by `t = (y + 1) / 2` of the unit direction.
pub open spec fn background(dir: Vec3) -> Color {
    let t = (dir.unit().y + ONE) / 2;
    Vec3 {
        x: blend(SKY_R as int, t) as i64,
        y: blend(SKY_G as int, t) as i64,
        z: blend(SKY_B as int, t) as i64,
    }
}

/// `(1 - t) * white + t * sky` in one channel, for `t` in `[0, 1]`.
fn blend_channel(sky: i64, t: i64) -> (r: i64)
    requires
        0 <= sky <= ONE,
        0 <= t <= ONE,
    ensures
        r == blend(sky as int, t as int),
        0 <= r <= ONE,
{
    let a = scalar_mul(ONE, ONE - t);
    let b = scalar_mul(sky, t);
    proof {
        lemma_fraction_product(ONE as int, ONE - t);
        lemma_fraction_product(sky as int, t as int);
        let one = ONE as int;
        assert(one * (one - t) + sky * t <= one * one) by (nonlinear_arith)
            requires
                0 <= sky <= one,
                0 <= t <= one,
        ;
        vstd::arithmetic::div_mod::lemma_fundamental_div_mod(one * (one - t), one);
        vstd::arithmetic::div_mod::lemma_fundamental_div_mod(sky * t, one);
    }
    a + b
}

/// The product of two fractions is a fraction.
proof fn lemma_fraction_product(a: int, b: int)
    requires
        0 <= a <= ONE,
        0 <= b <= ONE,
    ensures
        0 <= fx_mul(a, b) <= ONE,
{
    assert(0 <= a * b) by (nonlinear_arith)
        requires
            0 <= a,
            0 <= b,
    ;
    vstd::arithmetic::div_mod::lemma_div_pos_is_pos(a * b, ONE as int);
    lemma_fx_mul_within(a, b, ONE as int, ONE as int, ONE as int);
}

/// The background color along the direction of a well-formed ray.
pub fn background_color(r: &Ray) -> (c: Color)
    requires
        r.wf(),
    ensures
        c == background(r.dir),
        is_fraction(c),
{
    let unit_direction = r.direction().normalize();
    let t: i64 = (unit_direction.y() + ONE) / 2;
    Vec3::new(blend_channel(SKY_R, t), blend_channel(SKY_G, t), blend_channel(SKY_B, t))
}

/// `mat` can scatter `r`, which made the hit `rec`, into the direction `dir`.
#[verifier::opaque]
pub open spec fn may_scatter(mat: MaterialKind, r: Ray, rec: HitRecord, dir: Vec3) -> bool {
    mat.scatters_to(r, rec, dir)
}

/// `r` hits nothing of `world` within `[HIT_EPSILON, max]`.
#[verifier::opaque]
pub open spec fn escapes(world: HittableList, r: Ray) -> bool {
    !world.any_hit(r, HIT_EPSILON as int, i64::MAX as int)
}

/// `rec` is the nearest hit of `r` in `world` within `[HIT_EPSILON, max]`.
#[verifier::opaque]
pub open spec fn nearest(world: HittableList, r: Ray, rec: HitRecord) -> bool {
    world.is_nearest(r, HIT_EPSILON as int, i64::MAX as int, rec)
}

/// `c` is a color that the ray `r` can gather from `world` within `depth`
/// bounces. Without bounces left, or for a ray outside the representable
/// world, it is black. A ray that hits nothing within `[HIT_EPSILON, max]`
/// sees the background. One that hits a surface, at its nearest hit, is
/// absorbed and black, or is scattered from the hit point in a direction the
/// material allows, and gathers what that ray gathers within `depth - 1`
/// bounces, attenuated by the material.
pub open spec fn gathered(r: Ray, world: HittableList, depth: int, c: Color) -> bool
    decreases depth, 1int,
{
    if depth <= 0 || !r.wf() {
        c == black()
    } else if escapes(world, r) {
        c == background(r.dir)
    } else {
        exists|rec: HitRecord|
            #[trigger] nearest(world, r, rec) && (if rec.mat.absorbs(rec) {
                c == black()
            } else {
                scatter_gathers(r, world, depth, rec, c)
            })
    }
}

/// At the hit `rec`, `r` is scattered from the hit point in a direction the
/// material allows, and `c` is what that ray gathers within `depth - 1`
/// bounces, attenuated by the material.
pub open spec fn scatter_gathers(r: Ray, world: HittableList, depth: int, rec: HitRecord, c: Color) -> bool
    decreases depth, 0int,
{
    depth > 0 && exists|s: Ray, child: Color|
        #![trigger may_scatter(rec.mat, r, rec, s.dir), child.times(rec.mat.attenuation())]
        s.orig == rec.p && may_scatter(rec.mat, r, rec, s.dir) && gathered(s, world, depth - 1, child)
            && c == child.times(rec.mat.attenuation())
}

/// A ray scattered at the nearest hit gathers the attenuated color of the
/// scattered ray.
proof fn lemma_gathered_scattered(
    r: Ray,
    world: HittableList,
    depth: int,
    rec: HitRecord,
    s: Ray,
    child: Color,
    c: Color,
)
    requires
        depth > 0,
        r.wf(),
        world.any_hit(r, HIT_EPSILON as int, i64::MAX as int),
        world.is_nearest(r, HIT_EPSILON as int, i64::MAX as int, rec),
        !rec.mat.absorbs(rec),
        s.orig == rec.p,
        rec.mat.scatters_to(r, rec, s.dir),
        gathered(s, world, depth - 1, child),
        c == child.times(rec.mat.attenuation()),
    ensures
        gathered(r, world, depth, c),
{
    assert(may_scatter(rec.mat, r, rec, s.dir)) by {
        reveal(may_scatter);
    }
    assert(!escapes(world, r) && nearest(world, r, rec)) by {
        reveal(escapes);
        reveal(nearest);
    }
    assert(scatter_gathers(r, world, depth, rec, c));
    reveal_with_fuel(gathered, 1);
}

/// A ray absorbed at the nearest hit gathers black.
proof fn lemma_gathered_absorbed(r: Ray, world: HittableList, depth: int, rec: HitRecord, c: Color)
    requires
        depth > 0,
        r.wf(),
        world.any_hit(r, HIT_EPSILON as int, i64::MAX as int),
        world.is_nearest(r, HIT_EPSILON as int, i64::MAX as int, rec),
        rec.mat.absorbs(rec),
        c == black(),
    ensures
        gathered(r, world, depth, c),
{
    assert(!escapes(world, r) && nearest(world, r, rec)) by {
        reveal(escapes);
        reveal(nearest);
    }
    reveal_with_fuel(gathered, 1);
}

/// A ray that hits nothing gathers the background.
proof fn lemma_gathered_background(r: Ray, world: HittableList, depth: int, c: Color)
    requires
        depth > 0,
        r.wf(),
        !world.any_hit(r, HIT_EPSILON as int, i64::MAX as int),
        c == background(r.dir),
    ensures
        gathered(r, world, depth, c),
{
    assert(escapes(world, r)) by {
        reveal(escapes);
    }
    reveal_with_fuel(gathered, 1);
}

/// The color that a ray gathers from the scene within `depth` bounces.
pub fn ray_color(r: &Ray, world: &HittableList, depth: i64, rng: &mut rand::rngs::StdRng) -> (c: Color)
    requires
        world.valid(),
    ensures
        is_fraction(c),
        gathered(*r, *world, depth as int, c),
    decreases depth,
{
    // if we've exceeded the ray bounce limit, no more light is computed
    if depth <= 0 || !r.is_valid() {
        proof {
            reveal_with_fuel(gathered, 1);
        }
        return Vec3::new(0, 0, 0);
    }
    match world.hit(r, HIT_EPSILON, i64::MAX) {
        Some(rec) => {
            match rec.mat.scatter(r, &rec, rng) {
                Some((scattered, attenuation)) => {
                    let child = ray_color(&scattered, world, depth - 1, rng);
                    proof {
                        lemma_fraction_product(child.x as int, attenuation.x as int);
                        lemma_fraction_product(child.y as int, attenuation.y as int);
                        lemma_fraction_product(child.z as int, attenuation.z as int);
                    }
                    let c = child.mul(attenuation);
                    proof {
                        lemma_gathered_scattered(*r, *world, depth as int, rec, scattered, child, c);
                    }
                    c
                },
                None => {
                    let c = Vec3::new(0, 0, 0);
                    proof {
                        lemma_gathered_absorbed(*r, *world, depth as int, rec, c);
                    }
                    c
                },
            }
        },
        None => {
            let c = background_color(r);
            proof {
                lemma_gathered_background(*r, *world, depth as int, c);
            }
            c
        },
    }
}

/// Sums of the channels of a sequence of colors.
pub open spec fn sum_x(s: Seq<Color>) -> int
    decreases s.len(),
{
    if s.len() == 0 {
        0
    } else {
        sum_x(s.drop_last()) + s.last().x
    }
}

pub open spec fn sum_y(s: Seq<Color>) -> int
    decreases s.len(),
{
    if s.len() == 0 {
        0
    } else {
        sum_y(s.drop_last()) + s.last().y
    }
}

pub open spec fn sum_z(s: Seq<Color>) -> int
    decreases s.len(),
{
    if s.len() == 0 {
        0
    } else {
        sum_z(s.drop_last()) + s.last().z
    }
}

/// The mean of `n` colors, rounded down.
pub open spec fn average(s: Seq<Color>, n: int) -> Color {
    Vec3 { x: (sum_x(s) / n) as i64, y: (sum_y(s) / n) as i64, z: (sum_z(s) / n) as i64 }
}

/// The coordinate across the viewport of the sample at pixel `i` of `n`,
/// jittered by `d` in `[0, 1)`: `(i + d) / (n - 1)`.
pub open spec fn viewport_coord(i: int, d: int, n: int) -> int {
    (i * ONE + d) / (n - 1)
}

/// Largest image side that the sampling driver accepts.
pub const MAX_IMAGE_SIDE: i64 = 0x1_0000_0000;

/// Largest number of samples per pixel that the sampling driver accepts.
pub const MAX_SAMPLES: i64 = 0x1_0000_0000;

/// A jittered viewport coordinate for pixel `i` of `n`.
fn jittered(i: i64, n: i64, rng: &mut rand::rngs::StdRng) -> (r: i64)
    requires
        0 <= i < n,
        2 <= n <= MAX_IMAGE_SIDE,
    ensures
        exists|d: int| 0 <= d < ONE && r == viewport_coord(i as int, d, n as int),
        0 <= r <= 2 * ONE,
{
    let d = random_range(rng, 0, ONE);
    proof {
        let one = ONE as int;
        assert(0 <= i * one + d <= 2 * one * (n - 1)) by (nonlinear_arith)
            requires
                0 <= i <= n - 1,
                n >= 2,
                0 <= d < one,
                one > 0,
        ;
        vstd::arithmetic::div_mod::lemma_div_is_ordered(i * one + d, 2 * one * (n - 1), n - 1);
        vstd::arithmetic::div_mod::lemma_div_multiples_vanish(2 * one, n - 1);
        vstd::arithmetic::div_mod::lemma_div_pos_is_pos(i * one + d, n - 1);
        assert((n - 1) * (2 * one) == 2 * one * (n - 1)) by (nonlinear_arith);
    }
    let r = (i * ONE + d) / (n - 1);
    assert(0 <= d < ONE && r == viewport_coord(i as int, d as int, n as int));
    r
}

/// `r` is a ray of `camera` through a point of pixel `(i, j)` of an image
/// `w` by `h`.
pub open spec fn through_pixel(camera: Camera, i: int, j: int, w: int, h: int, r: Ray) -> bool {
    exists|du: int, dv: int, disk: Vec3|
        0 <= du < ONE && 0 <= dv < ONE && disk.z == 0 && in_unit_ball(disk) && r == ray_through(
            camera,
            viewport_coord(i, du, w),
            viewport_coord(j, dv, h),
            disk,
        )
}

/// The color of pixel `(i, j)` of an image `image_width` by `image_height`,
/// `j` counting from the bottom row: the mean of `samples_per_pixel` rays
/// through random points of the pixel, each traced with `max_depth` bounces.
pub fn render_pixel(
    camera: &Camera,
    world: &HittableList,
    i: i64,
    j: i64,
    image_width: i64,
    image_height: i64,
    samples_per_pixel: i64,
    max_depth: i64,
    rng: &mut rand::rngs::StdRng,
) -> (c: Color)
    requires
        camera.valid(),
        world.valid(),
        0 <= i < image_width <= MAX_IMAGE_SIDE,
        0 <= j < image_height <= MAX_IMAGE_SIDE,
        image_width >= 2,
        image_height >= 2,
        1 <= samples_per_pixel <= MAX_SAMPLES,
    ensures
        exists|rays: Seq<Ray>, samples: Seq<Color>|
            {
                &&& rays.len() == samples_per_pixel
                &&& samples.len() == samples_per_pixel
                &&& forall|k: int|
                    0 <= k < samples_per_pixel ==> through_pixel(
                        *camera,
                        i as int,
                        j as int,
                        image_width as int,
                        image_height as int,
                        #[trigger] rays[k],
                    ) && gathered(rays[k], *world, max_depth as int, samples[k])
                &&& c == average(samples, samples_per_pixel as int)
            },
        is_fraction(c),
{
    let mut sum = Vec3::new(0, 0, 0);
    let ghost mut samples: Seq<Color> = Seq::empty();
    let ghost mut rays: Seq<Ray> = Seq::empty();
    let mut k: i64 = 0;
    while k < samples_per_pixel
        invariant
            0 <= k <= samples_per_pixel <= MAX_SAMPLES,
            camera.valid(),
            world.valid(),
            0 <= i < image_width <= MAX_IMAGE_SIDE,
            0 <= j < image_height <= MAX_IMAGE_SIDE,
            image_width >= 2,
            image_height >= 2,
            samples.len() == k,
            rays.len() == k,
            forall|m: int| 0 <= m < samples.len() ==> is_fraction(#[trigger] samples[m]),
            forall|m: int|
                0 <= m < k ==> through_pixel(
                    *camera,
                    i as int,
                    j as int,
                    image_width as int,
                    image_height as int,
                    #[trigger] rays[m],
                ) && gathered(rays[m], *world, max_depth as int, samples[m]),
            sum.x == sum_x(samples),
            sum.y == sum_y(samples),
            sum.z == sum_z(samples),
            0 <= sum.x <= k * ONE,
            0 <= sum.y <= k * ONE,
            0 <= sum.z <= k * ONE,
        decreases samples_per_pixel - k,
    {
        let s = jittered(i, image_width, rng);
        let t = jittered(j, image_height, rng);
        let r = camera.get_ray(s, t, rng);
        let color = ray_color(&r, world, max_depth, rng);
        proof {
            let old_samples = samples;
            samples = samples.push(color);
            rays = rays.push(r);
            assert(samples.drop_last() == old_samples);
            assert(through_pixel(*camera, i as int, j as int, image_width as int, image_height as int, r));
        }
        sum = sum.add(color);
        k = k + 1;
    }
    proof {
        let n = samples_per_pixel as int;
        let one = ONE as int;
        vstd::arithmetic::div_mod::lemma_div_is_ordered(sum.x as int, n * one, n);
        vstd::arithmetic::div_mod::lemma_div_is_ordered(sum.y as int, n * one, n);
        vstd::arithmetic::div_mod::lemma_div_is_ordered(sum.z as int, n * one, n);
        vstd::arithmetic::div_mod::lemma_div_multiples_vanish(one, n);
        assert(n * one == one * n) by (nonlinear_arith);
        vstd::arithmetic::div_mod::lemma_div_pos_is_pos(sum.x as int, n);
        vstd::arithmetic::div_mod::lemma_div_pos_is_pos(sum.y as int, n);
        vstd::arithmetic::div_mod::lemma_div_pos_is_pos(sum.z as int, n);
    }
    Vec3::new(sum.x / samples_per_pixel, sum.y / samples_per_pixel, sum.z / samples_per_pixel)
}

/// The largest fraction that quantizes below 256: 0.999.
pub const CLAMP_MAX: i64 = 65470;

/// The 8-bit value of one linear channel after gamma 2 correction:
/// `256 * min(sqrt(c), 0.999)`, rounded down, with negative values taken as 0.
pub open spec fn gamma_byte(c: int) -> int {
    let g = if c > 0 { isqrt(c * ONE) } else { 0 };
    (if g > CLAMP_MAX { CLAMP_MAX as int } else { g }) / 256
}

/// One channel, gamma corrected and quantized to 8 bits.
pub fn channel_byte(c: i64) -> (r: u8)
    ensures
        r == gamma_byte(c as int),
{
    let g: i64 = if c > 0 {
        proof {
            vstd::arithmetic::mul::lemma_mul_strictly_positive(c as int, ONE as int);
            lemma_mul_within(c as int, ONE as int, 0x8000_0000_0000_0000, ONE as int);
        }
        let v = (c as i128) * (ONE as i128);
        let s = sqrt_floor(v as u128);
        if s > CLAMP_MAX as u64 {
            CLAMP_MAX
        } else {
            s as i64
        }
    } else {
        0
    };
    (g / 256) as u8
}

/// The 8-bit red, green and blue values of a linear color.
pub fn color_bytes(c: Color) -> (r: (u8, u8, u8))
    ensures
        r.0 == gamma_byte(c.x as int),
        r.1 == gamma_byte(c.y as int),
        r.2 == gamma_byte(c.z as int),
{
    (channel_byte(c.x), channel_byte(c.y), channel_byte(c.z))
}

} // verus!
