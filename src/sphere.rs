//! The sphere primitive and its analytic intersection.
use crate::fixed::{floor_div, is_sqrt_floor, isqrt, sqrt_floor, ONE, WORLD_MAX};
use crate::hittable::{HitRecord, Hittable};
use crate::material::MaterialKind;
use crate::ray::{point_fits, Ray};
use crate::vec3::{
    Vec3, dot_exact, fx_mul, lemma_div_within, dot_wide, lemma_mul_within, lemma_norm_sq_nonneg, lemma_norm_sq_pos, within, Point3,
};
use vstd::prelude::*;

verus! {

#[derive(Clone, Copy, Debug)]
pub struct Sphere {
    pub center: Point3,
    pub radius: i64,
    pub mat: MaterialKind,
}

/// The coefficients of `|O + tD - C|^2 = r^2`, at scale `ONE * ONE`:
/// `a = D.D`, half of `b` is `D.(O - C)`, `c = |O - C|^2 - r^2`.
pub open spec fn quad_a(r: Ray) -> int {
    dot_exact(r.dir, r.dir)
}

pub open spec fn half_b(s: Sphere, r: Ray) -> int {
    dot_exact(r.dir, r.orig.minus(s.center))
}

pub open spec fn quad_c(s: Sphere, r: Ray) -> int {
    dot_exact(r.orig.minus(s.center), r.orig.minus(s.center)) - s.radius * s.radius
}

pub open spec fn discriminant(s: Sphere, r: Ray) -> int {
    half_b(s, r) * half_b(s, r) - quad_a(r) * quad_c(s, r)
}

/// The smaller root, in fixed point, rounded down.
pub open spec fn near_root(s: Sphere, r: Ray) -> int {
    ((-half_b(s, r) - isqrt(discriminant(s, r))) * ONE) / quad_a(r)
}

/// The larger root, in fixed point, rounded down.
pub open spec fn far_root(s: Sphere, r: Ray) -> int {
    ((-half_b(s, r) + isqrt(discriminant(s, r))) * ONE) / quad_a(r)
}

/// The root that the intersection reports: the smaller one if it lies in
/// `[t_min, t_max]`, else the larger one if that does.
pub open spec fn first_root(s: Sphere, r: Ray, t_min: int, t_max: int) -> Option<int> {
    if discriminant(s, r) < 0 {
        None
    } else if t_min <= near_root(s, r) <= t_max {
        Some(near_root(s, r))
    } else if t_min <= far_root(s, r) <= t_max {
        Some(far_root(s, r))
    } else {
        None
    }
}

impl Sphere {
    /// The whole sphere, widened by `HIT_MARGIN`, lies in the representable
    /// world.
    pub open spec fn valid(self) -> bool {
        &&& 0 < self.radius
        &&& self.center.within(WORLD_MAX - self.radius - HIT_MARGIN)
        &&& self.mat.valid()
    }

    pub fn new(center: Point3, radius: i64, mat: MaterialKind) -> (r: Sphere)
        ensures
            r.center == center,
            r.radius == radius,
            r.mat == mat,
    {
        Sphere { center, radius, mat }
    }
}

/// A sphere reports a hit exactly when one of its roots lies in the window.
pub proof fn lemma_hit_iff_root(s: Sphere, r: Ray, t_min: int, t_max: int)
    ensures
        s.hit_spec(r, t_min, t_max) is Some <==> first_root(s, r, t_min, t_max) is Some,
{
}

/// How far, in grid units, a computed hit point may stray outside the sphere
/// through rounding: an eighth of a unit and one grid step.
pub const HIT_MARGIN: i64 = 8193;

/// The outward unit normal at `p`: from the center through `p`. Where the
/// rounded point falls on the center itself, the reverse of the ray's
/// direction stands in for it.
pub open spec fn outward_at(s: Sphere, r: Ray, p: Point3) -> Vec3 {
    if p.minus(s.center).is_zero() {
        r.dir.negated().unit()
    } else {
        p.minus(s.center).unit()
    }
}

/// The record of a hit at parameter `t`: the point, the outward normal
/// oriented against the ray, and the sphere's material.
pub open spec fn hit_at(s: Sphere, r: Ray, t: int) -> Option<HitRecord> {
    let p = r.at_spec(t);
    let n = outward_at(s, r, p);
    let front = dot_exact(r.dir, n) < 0;
    Some(
        HitRecord {
            p,
            normal: if front { n } else { n.negated() },
            mat: s.mat,
            t: t as i64,
            front_face: front,
        },
    )
}

/// `(a o + n d)^2 = a^2 o^2 + 2 a n (d o) + n^2 d^2`.
proof fn lemma_square_sum(a: int, n: int, o: int, d: int)
    ensures
        (a * o + n * d) * (a * o + n * d) == a * a * (o * o) + 2 * (a * n * (d * o)) + n * n * (d * d),
{
    let u = a * o;
    let v = n * d;
    assert((u + v) * (u + v) == u * u + 2 * (u * v) + v * v) by (nonlinear_arith);
    assert(u * u == a * a * (o * o)) by (nonlinear_arith)
        requires
            u == a * o,
    ;
    assert(u * v == a * n * (d * o)) by (nonlinear_arith)
        requires
            u == a * o,
            v == n * d,
    ;
    assert(v * v == n * n * (d * d)) by (nonlinear_arith)
        requires
            v == n * d,
    ;
}

/// A component of a vector is no longer than a bound on the vector's length.
proof fn lemma_component_bound(w: int, sum: int, b: int)
    requires
        w * w <= sum,
        sum <= b * b,
        b >= 0,
    ensures
        within(w, b),
{
    assert(within(w, b)) by (nonlinear_arith)
        requires
            w * w <= b * b,
            b >= 0,
    ;
}

/// The point at either root lies within `radius + HIT_MARGIN` of the center
/// in every coordinate: the floor square root puts the exact point of the
/// rounded root inside the sphere, and rounding the parameter moves it by
/// less than the direction's length over `ONE`.
proof fn lemma_root_point_near(s: Sphere, r: Ray, sq: int, t: int)
    requires
        r.wf(),
        s.valid(),
        discriminant(s, r) >= 0,
        sq == isqrt(discriminant(s, r)),
        t == ((-half_b(s, r) - sq) * ONE) / quad_a(r) || t == ((-half_b(s, r) + sq) * ONE) / quad_a(r),
    ensures
        point_fits(r, t),
{
    let d = r.dir;
    let o = r.orig.minus(s.center);
    let a = quad_a(r);
    let hb = half_b(s, r);
    let cc = quad_c(s, r);
    let disc = discriminant(s, r);
    let rad = s.radius as int;
    let one = ONE as int;
    lemma_norm_sq_pos(d);
    crate::fixed::lemma_isqrt_exists(disc);
    let n = if t == ((-hb - sq) * one) / a { -hb - sq } else { -hb + sq };
    assert(t == (n * one) / a);
    assert((n + hb) * (n + hb) == sq * sq) by (nonlinear_arith)
        requires
            n == -hb - sq || n == -hb + sq,
    ;
    let wx = a * o.x + n * d.x;
    let wy = a * o.y + n * d.y;
    let wz = a * o.z + n * d.z;
    lemma_square_sum(a, n, o.x as int, d.x as int);
    lemma_square_sum(a, n, o.y as int, d.y as int);
    lemma_square_sum(a, n, o.z as int, d.z as int);
    let oo = o.x * o.x + o.y * o.y + o.z * o.z;
    assert(a * a * (o.x * o.x) + a * a * (o.y * o.y) + a * a * (o.z * o.z) == a * a * oo) by (nonlinear_arith)
        requires
            oo == o.x * o.x + o.y * o.y + o.z * o.z,
    ;
    assert(2 * (a * n * (d.x * o.x)) + 2 * (a * n * (d.y * o.y)) + 2 * (a * n * (d.z * o.z)) == 2 * a * n * hb) by (nonlinear_arith)
        requires
            hb == d.x * o.x + d.y * o.y + d.z * o.z,
    ;
    assert(n * n * (d.x * d.x) + n * n * (d.y * d.y) + n * n * (d.z * d.z) == n * n * a) by (nonlinear_arith)
        requires
            a == d.x * d.x + d.y * d.y + d.z * d.z,
    ;
    let ww = wx * wx + wy * wy + wz * wz;
    assert(ww == a * a * oo + 2 * a * n * hb + n * n * a);
    let r2 = rad * rad;
    assert(a * a * oo + 2 * a * n * hb + n * n * a == a * (a * r2 - (disc - sq * sq))) by (nonlinear_arith)
        requires
            oo == cc + r2,
            disc == hb * hb - a * cc,
            (n + hb) * (n + hb) == sq * sq,
    ;
    assert(ww <= (a * rad) * (a * rad)) by (nonlinear_arith)
        requires
            ww == a * (a * r2 - (disc - sq * sq)),
            sq * sq <= disc,
            a >= 1,
            r2 == rad * rad,
    ;
    assert(a * rad >= 0) by (nonlinear_arith)
        requires
            a >= 1,
            rad > 0,
    ;
    assert(wx * wx >= 0 && wy * wy >= 0 && wz * wz >= 0) by (nonlinear_arith);
    lemma_component_bound(wx, ww, a * rad);
    lemma_component_bound(wy, ww, a * rad);
    lemma_component_bound(wz, ww, a * rad);
    vstd::arithmetic::div_mod::lemma_fundamental_div_mod(n * one, a);
    let e = (n * one) % a;
    assert(n * one == a * t + e && 0 <= e < a);
    lemma_coord_near(o.x as int, d.x as int, a, n, t, e, rad);
    lemma_coord_near(o.y as int, d.y as int, a, n, t, e, rad);
    lemma_coord_near(o.z as int, d.z as int, a, n, t, e, rad);
}

/// One coordinate of the rounded point: `o + floor(d t / ONE)` lies within
/// `rad + HIT_MARGIN` when `|a o + n d| <= a rad` and `n ONE = a t + e`.
proof fn lemma_coord_near(o: int, d: int, a: int, n: int, t: int, e: int, rad: int)
    requires
        within(a * o + n * d, a * rad),
        within(d, WORLD_MAX as int),
        n * ONE == a * t + e,
        0 <= e < a,
        rad > 0,
    ensures
        within(o + fx_mul(d, t), rad + HIT_MARGIN),
{
    let one = ONE as int;
    let x = o * one + d * t;
    assert(a * x == one * (a * o + n * d) - d * e) by (nonlinear_arith)
        requires
            x == o * one + d * t,
            n * one == a * t + e,
    ;
    assert(within(x, one * rad + WORLD_MAX)) by (nonlinear_arith)
        requires
            a * x == one * (a * o + n * d) - d * e,
            -(a * rad) <= a * o + n * d <= a * rad,
            -WORLD_MAX <= d <= WORLD_MAX,
            0 <= e < a,
            one > 0,
    ;
    lemma_div_within(x, one * rad + WORLD_MAX, one);
    vstd::arithmetic::div_mod::lemma_hoist_over_denominator(d * t, o, ONE as nat);
}

/// The smaller root never exceeds the larger one.
proof fn lemma_roots_ordered(s: Sphere, r: Ray)
    requires
        r.wf(),
        discriminant(s, r) >= 0,
    ensures
        near_root(s, r) <= far_root(s, r),
{
    lemma_norm_sq_pos(r.dir);
    let d = discriminant(s, r);
    let sq = isqrt(d);
    crate::fixed::lemma_isqrt_exists(d);
    let hb = half_b(s, r);
    assert((-hb - sq) * ONE <= (-hb + sq) * ONE) by (nonlinear_arith)
        requires
            sq >= 0,
    ;
    vstd::arithmetic::div_mod::lemma_div_is_ordered((-hb - sq) * ONE, (-hb + sq) * ONE, quad_a(r));
}

/// Narrowing the window to `[t_min, t_max2]` keeps a hit at or before
/// `t_max2` and drops one after it.
pub proof fn lemma_hit_window(s: Sphere, r: Ray, t_min: int, t_max: int, t_max2: int)
    requires
        r.wf(),
        i64::MIN <= t_min,
        t_max2 <= t_max <= i64::MAX,
    ensures
        match s.hit_spec(r, t_min, t_max) {
            None => s.hit_spec(r, t_min, t_max2) is None,
            Some(o) => if o.t <= t_max2 {
                s.hit_spec(r, t_min, t_max2) == Some(o)
            } else {
                s.hit_spec(r, t_min, t_max2) is None
            },
        },
{
    if discriminant(s, r) >= 0 {
        lemma_roots_ordered(s, r);
        let n = near_root(s, r);
        let f = far_root(s, r);
        if t_min <= n <= t_max {
            assert(s.hit_spec(r, t_min, t_max) == hit_at(s, r, n));
        } else if t_min <= f <= t_max {
            assert(s.hit_spec(r, t_min, t_max) == hit_at(s, r, f));
        }
    }
}

/// A ray whose origin lies strictly inside the sphere never reports the
/// smaller root, which lies behind it, for a window that starts after 0: a
/// hit it reports is at the larger root, which lies ahead of it.
pub proof fn lemma_inside_far_root(s: Sphere, r: Ray, t_min: int, t_max: int)
    requires
        r.wf(),
        i64::MIN <= t_min,
        t_max <= i64::MAX,
        quad_c(s, r) < 0,
        t_min > 0,
    ensures
        near_root(s, r) <= 0 <= far_root(s, r),
        first_root(s, r, t_min, t_max) is None || first_root(s, r, t_min, t_max) == Some(
            far_root(s, r),
        ),
        t_min <= far_root(s, r) <= t_max ==> s.hit_spec(r, t_min, t_max) is Some && s.hit_spec(
            r,
            t_min,
            t_max,
        ).unwrap().t == far_root(s, r),
{
    lemma_norm_sq_pos(r.dir);
    let a = quad_a(r);
    let c = quad_c(s, r);
    let hb = half_b(s, r);
    let d = discriminant(s, r);
    assert(a * c < 0) by (nonlinear_arith)
        requires
            a >= 1,
            c < 0,
    ;
    assert(hb * hb >= 0) by (nonlinear_arith);
    crate::fixed::lemma_isqrt_exists(d);
    let sq = isqrt(d);
    assert(sq >= hb && sq >= -hb) by (nonlinear_arith)
        requires
            d < (sq + 1) * (sq + 1),
            d > hb * hb,
            sq >= 0,
    ;
    let one = ONE as int;
    assert((-hb - sq) * one <= 0 && (-hb + sq) * one >= 0) by (nonlinear_arith)
        requires
            -hb - sq <= 0,
            -hb + sq >= 0,
            one > 0,
    ;
    vstd::arithmetic::div_mod::lemma_div_is_ordered((-hb - sq) * one, 0, a);
    vstd::arithmetic::div_mod::lemma_div_is_ordered(0, (-hb + sq) * one, a);
}

/// A ray aimed straight at the center from outside: the center lies `m`
/// direction-lengths ahead of the origin and the direction has the exact
/// length `l`. The smaller root is then `(distance to center - radius) / l`,
/// with the distance `m * l`; for a unit direction it is the distance minus
/// the radius. Within the window it is the root reported.
pub proof fn lemma_aimed_at_center(s: Sphere, r: Ray, m: int, l: int, t_min: int, t_max: int)
    requires
        r.wf(),
        i64::MIN <= t_min,
        t_max <= i64::MAX,
        s.valid(),
        r.dir.norm_sq() == l * l,
        l > 0,
        m >= 1,
        s.center.x == r.orig.x + m * r.dir.x,
        s.center.y == r.orig.y + m * r.dir.y,
        s.center.z == r.orig.z + m * r.dir.z,
        s.radius < m * l,
    ensures
        discriminant(s, r) >= 0,
        near_root(s, r) == ((m * l - s.radius) * ONE) / l,
        t_min <= near_root(s, r) <= t_max ==> first_root(s, r, t_min, t_max) == Some(near_root(s, r)),
        t_min <= near_root(s, r) <= t_max ==> s.hit_spec(r, t_min, t_max) is Some && s.hit_spec(
            r,
            t_min,
            t_max,
        ).unwrap().t == near_root(s, r),
{
    let d = r.dir;
    let o = r.orig.minus(s.center);
    let rad = s.radius as int;
    assert(o.x == -(m * d.x) && o.y == -(m * d.y) && o.z == -(m * d.z));
    let dd = d.norm_sq();
    assert(dot_exact(d, o) == -(m * dd)) by (nonlinear_arith)
        requires
            o.x == -(m * d.x),
            o.y == -(m * d.y),
            o.z == -(m * d.z),
            dd == d.x * d.x + d.y * d.y + d.z * d.z,
            dot_exact(d, o) == d.x * o.x + d.y * o.y + d.z * o.z,
    ;
    assert(o.x * o.x == m * m * (d.x * d.x)) by (nonlinear_arith)
        requires
            o.x == -(m * d.x),
    ;
    assert(o.y * o.y == m * m * (d.y * d.y)) by (nonlinear_arith)
        requires
            o.y == -(m * d.y),
    ;
    assert(o.z * o.z == m * m * (d.z * d.z)) by (nonlinear_arith)
        requires
            o.z == -(m * d.z),
    ;
    vstd::arithmetic::mul::lemma_mul_is_distributive_add(m * m, d.x * d.x, d.y * d.y);
    vstd::arithmetic::mul::lemma_mul_is_distributive_add(m * m, d.x * d.x + d.y * d.y, d.z * d.z);
    assert(dot_exact(o, o) == m * m * dd);
    let hb = half_b(s, r);
    let c = quad_c(s, r);
    let disc = discriminant(s, r);
    let l2 = l * l;
    assert(hb * hb == m * m * (l2 * l2)) by (nonlinear_arith)
        requires
            hb == -(m * l2),
    ;
    assert(l2 * c == m * m * (l2 * l2) - l2 * (rad * rad)) by (nonlinear_arith)
        requires
            c == m * m * l2 - rad * rad,
    ;
    assert(l2 * (rad * rad) == (l * rad) * (l * rad)) by (nonlinear_arith)
        requires
            l2 == l * l,
    ;
    assert(disc == (l * rad) * (l * rad));
    assert(is_sqrt_floor(disc, l * rad)) by (nonlinear_arith)
        requires
            disc == (l * rad) * (l * rad),
            l > 0,
            rad > 0,
    ;
    crate::fixed::lemma_isqrt_exists(disc);
    crate::fixed::lemma_sqrt_floor_unique(disc, isqrt(disc), l * rad);
    let one = ONE as int;
    assert((-hb - l * rad) * one == l * ((m * l - rad) * one)) by (nonlinear_arith)
        requires
            hb == -(m * (l * l)),
    ;
    assert((m * l - rad) * one >= 0) by (nonlinear_arith)
        requires
            rad < m * l,
            one > 0,
    ;
    vstd::arithmetic::div_mod::lemma_div_multiples_vanish_quotient(l, (m * l - rad) * one, l);
}

/// The exact cross product of two vectors, at scale `ONE * ONE`.
pub open spec fn cross_exact_sq(a: Vec3, b: Vec3) -> int {
    let cx = a.y * b.z - a.z * b.y;
    let cy = a.z * b.x - a.x * b.z;
    let cz = a.x * b.y - a.y * b.x;
    cx * cx + cy * cy + cz * cz
}

/// A ray whose line passes farther from the center than the radius
/// (`|D x (O - C)| > |D| r`) misses the sphere.
pub proof fn lemma_miss(s: Sphere, r: Ray, t_min: int, t_max: int)
    requires
        cross_exact_sq(r.dir, r.orig.minus(s.center)) > quad_a(r) * (s.radius * s.radius),
    ensures
        discriminant(s, r) < 0,
        s.hit_spec(r, t_min, t_max) is None,
{
    let d = r.dir;
    let o = r.orig.minus(s.center);
    lemma_lagrange(d.x as int, d.y as int, d.z as int, o.x as int, o.y as int, o.z as int);
    vstd::arithmetic::mul::lemma_mul_is_distributive_sub(quad_a(r), dot_exact(o, o), s.radius * s.radius);
}

/// Lagrange's identity: `|a|^2 |b|^2 - (a . b)^2 = |a x b|^2`.
proof fn lemma_lagrange(a1: int, a2: int, a3: int, b1: int, b2: int, b3: int)
    ensures
        (a1 * a1 + a2 * a2 + a3 * a3) * (b1 * b1 + b2 * b2 + b3 * b3) - (a1 * b1 + a2 * b2 + a3 * b3) * (a1 * b1 + a2 * b2 + a3 * b3)
            == (a2 * b3 - a3 * b2) * (a2 * b3 - a3 * b2) + (a3 * b1 - a1 * b3) * (a3 * b1 - a1 * b3) + (a1 * b2 - a2 * b1) * (a1 * b2 - a2 * b1),
{
    let p11 = a1 * b1;
    let p12 = a1 * b2;
    let p13 = a1 * b3;
    let p21 = a2 * b1;
    let p22 = a2 * b2;
    let p23 = a2 * b3;
    let p31 = a3 * b1;
    let p32 = a3 * b2;
    let p33 = a3 * b3;
    let sa1 = a1 * a1;
    let sa2 = a2 * a2;
    let sa3 = a3 * a3;
    let sb1 = b1 * b1;
    let sb2 = b2 * b2;
    let sb3 = b3 * b3;
    assert((sa1 + sa2 + sa3) * (sb1 + sb2 + sb3) == sa1 * sb1 + sa1 * sb2 + sa1 * sb3 + sa2 * sb1 + sa2 * sb2
        + sa2 * sb3 + sa3 * sb1 + sa3 * sb2 + sa3 * sb3) by (nonlinear_arith);
    assert(sa1 * sb1 == p11 * p11 && sa1 * sb2 == p12 * p12 && sa1 * sb3 == p13 * p13) by (nonlinear_arith)
        requires
            sa1 == a1 * a1,
            sb1 == b1 * b1,
            sb2 == b2 * b2,
            sb3 == b3 * b3,
            p11 == a1 * b1,
            p12 == a1 * b2,
            p13 == a1 * b3,
    ;
    assert(sa2 * sb1 == p21 * p21 && sa2 * sb2 == p22 * p22 && sa2 * sb3 == p23 * p23) by (nonlinear_arith)
        requires
            sa2 == a2 * a2,
            sb1 == b1 * b1,
            sb2 == b2 * b2,
            sb3 == b3 * b3,
            p21 == a2 * b1,
            p22 == a2 * b2,
            p23 == a2 * b3,
    ;
    assert(sa3 * sb1 == p31 * p31 && sa3 * sb2 == p32 * p32 && sa3 * sb3 == p33 * p33) by (nonlinear_arith)
        requires
            sa3 == a3 * a3,
            sb1 == b1 * b1,
            sb2 == b2 * b2,
            sb3 == b3 * b3,
            p31 == a3 * b1,
            p32 == a3 * b2,
            p33 == a3 * b3,
    ;
    assert((p11 + p22 + p33) * (p11 + p22 + p33) == p11 * p11 + p22 * p22 + p33 * p33 + 2 * (p11 * p22)
        + 2 * (p11 * p33) + 2 * (p22 * p33)) by (nonlinear_arith);
    assert(p23 * p32 == p22 * p33 && p31 * p13 == p11 * p33 && p12 * p21 == p11 * p22) by (nonlinear_arith)
        requires
            p11 == a1 * b1,
            p12 == a1 * b2,
            p13 == a1 * b3,
            p21 == a2 * b1,
            p22 == a2 * b2,
            p23 == a2 * b3,
            p31 == a3 * b1,
            p32 == a3 * b2,
            p33 == a3 * b3,
    ;
    assert((p23 - p32) * (p23 - p32) == p23 * p23 - 2 * (p23 * p32) + p32 * p32) by (nonlinear_arith);
    assert((p31 - p13) * (p31 - p13) == p31 * p31 - 2 * (p31 * p13) + p13 * p13) by (nonlinear_arith);
    assert((p12 - p21) * (p12 - p21) == p12 * p12 - 2 * (p12 * p21) + p21 * p21) by (nonlinear_arith);
}

impl Hittable for Sphere {
    open spec fn wf(&self) -> bool {
        self.valid()
    }

    open spec fn hit_spec(&self, r: Ray, t_min: int, t_max: int) -> Option<HitRecord> {
        match first_root(*self, r, t_min, t_max) {
            None => None,
            Some(t) => hit_at(*self, r, t),
        }
    }

    fn hit(&self, r: &Ray, t_min: i64, t_max: i64) -> (res: Option<HitRecord>) {
        let oc = r.origin().sub(self.center);
        let dir = r.direction();
        let a: i128 = dot_wide(&dir, &dir);
        let half_b: i128 = dot_wide(&dir, &oc);
        let oc2: i128 = dot_wide(&oc, &oc);
        proof {
            lemma_norm_sq_pos(dir);
            lemma_norm_sq_nonneg(oc);
            lemma_mul_within(dir.x as int, dir.x as int, WORLD_MAX as int, WORLD_MAX as int);
            lemma_mul_within(dir.y as int, dir.y as int, WORLD_MAX as int, WORLD_MAX as int);
            lemma_mul_within(dir.z as int, dir.z as int, WORLD_MAX as int, WORLD_MAX as int);
            lemma_mul_within(dir.x as int, oc.x as int, WORLD_MAX as int, 2 * WORLD_MAX);
            lemma_mul_within(dir.y as int, oc.y as int, WORLD_MAX as int, 2 * WORLD_MAX);
            lemma_mul_within(dir.z as int, oc.z as int, WORLD_MAX as int, 2 * WORLD_MAX);
            lemma_mul_within(oc.x as int, oc.x as int, 2 * WORLD_MAX, 2 * WORLD_MAX);
            lemma_mul_within(oc.y as int, oc.y as int, 2 * WORLD_MAX, 2 * WORLD_MAX);
            lemma_mul_within(oc.z as int, oc.z as int, 2 * WORLD_MAX, 2 * WORLD_MAX);
            lemma_mul_within(self.radius as int, self.radius as int, WORLD_MAX as int, WORLD_MAX as int);
        }
        let c: i128 = oc2 - (self.radius as i128) * (self.radius as i128);
        proof {
            lemma_mul_within(half_b as int, half_b as int, 0x1800_0000_0000_0000, 0x1800_0000_0000_0000);
            lemma_mul_within(a as int, c as int, 0x0c00_0000_0000_0000, 0x3000_0000_0000_0000);
        }
        let discriminant: i128 = half_b * half_b - a * c;
        if discriminant < 0 {
            return None;
        }
        let sqrtd: i128 = sqrt_floor(discriminant as u128) as i128;
        proof {
            let si = sqrtd as int;
            assert(si <= 0x4000_0000_0000_0000) by (nonlinear_arith)
                requires
                    si * si <= discriminant,
                    discriminant <= 0x0800_0000_0000_0000_0000_0000_0000_0000,
                    si >= 0,
            ;
        }
        proof {
            lemma_mul_within(-half_b - sqrtd, ONE as int, 0x8000_0000_0000_0000, ONE as int);
            lemma_mul_within(-half_b + sqrtd, ONE as int, 0x8000_0000_0000_0000, ONE as int);
        }
        // Find the nearest root that lies in the acceptable range.
        let mut root: i128 = floor_div((-half_b - sqrtd) * (ONE as i128), a);
        if root < t_min as i128 || (t_max as i128) < root {
            root = floor_div((-half_b + sqrtd) * (ONE as i128), a);
            if root < t_min as i128 || (t_max as i128) < root {
                return None;
            }
        }
        let t: i64 = root as i64;
        proof {
            lemma_root_point_near(*self, *r, sqrtd as int, t as int);
        }
        let p = r.at_checked(t).unwrap();
        let out = p.sub(self.center);
        let outward_normal = if out.x == 0 && out.y == 0 && out.z == 0 {
            dir.neg().normalize()
        } else {
            out.normalize()
        };
        proof {
            if outward_normal.is_zero() {
                assert(outward_normal.norm_sq() == 0) by (nonlinear_arith)
                    requires
                        outward_normal.x == 0 && outward_normal.y == 0 && outward_normal.z == 0,
                ;
            }
        }
        let mut rec = HitRecord { p, normal: outward_normal, mat: self.mat, t, front_face: false };
        rec.set_face_normal(r, &outward_normal);
        Some(rec)
    }
}

} // verus!
