//! A half-line `origin + t * direction`.
use crate::fixed::{floor_div, ONE, SCALAR_MAX, WORLD_MAX};
use crate::vec3::{fx_mul, lemma_div_within, lemma_mul_within, within, Point3, Vec3};
use vstd::prelude::*;

verus! {

#[derive(Clone, Copy, Debug, PartialEq, Eq, Structural)]
pub struct Ray {
    pub orig: Point3,
    pub dir: Vec3,
}

impl Ray {
    /// Origin and direction lie in the representable world and the
    /// direction is not zero.
    pub open spec fn wf(self) -> bool {
        self.orig.within(WORLD_MAX as int) && self.dir.within(WORLD_MAX as int)
            && !self.dir.is_zero()
    }

    /// The point at parameter `t`.
    pub open spec fn at_spec(self, t: int) -> Point3 {
        self.orig.plus(self.dir.scaled(t))
    }

    pub fn new(orig: Point3, dir: Vec3) -> (r: Ray)
        ensures
            r.orig == orig,
            r.dir == dir,
    {
        Ray { orig, dir }
    }

    pub fn origin(&self) -> (r: Point3)
        ensures
            r == self.orig,
    {
        self.orig
    }

    pub fn direction(&self) -> (r: Vec3)
        ensures
            r == self.dir,
    {
        self.dir
    }

    /// Tells whether the ray is well formed.
    pub fn is_valid(&self) -> (r: bool)
        ensures
            r == self.wf(),
    {
        let o = self.orig;
        let d = self.dir;
        -WORLD_MAX <= o.x && o.x <= WORLD_MAX && -WORLD_MAX <= o.y && o.y <= WORLD_MAX
            && -WORLD_MAX <= o.z && o.z <= WORLD_MAX && -WORLD_MAX <= d.x && d.x <= WORLD_MAX
            && -WORLD_MAX <= d.y && d.y <= WORLD_MAX && -WORLD_MAX <= d.z && d.z <= WORLD_MAX
            && !(d.x == 0 && d.y == 0 && d.z == 0)
    }

    /// The point `origin + direction * t`.
    pub fn at(&self, t: i64) -> (r: Point3)
        requires
            self.wf(),
            within(t as int, SCALAR_MAX as int),
        ensures
            r == self.at_spec(t as int),
    {
        self.orig.add(self.dir.scale(t))
    }

    /// The point at parameter `t`, when it lies in the representable world.
    pub fn at_checked(&self, t: i64) -> (r: Option<Point3>)
        requires
            self.wf(),
        ensures
            r is Some <==> point_fits(*self, t as int),
            r is Some ==> r->0 == self.at_spec(t as int),
    {
        match (coord_at(self.orig.x, self.dir.x, t), coord_at(self.orig.y, self.dir.y, t), coord_at(self.orig.z, self.dir.z, t)) {
            (Some(x), Some(y), Some(z)) => Some(Vec3 { x, y, z }),
            _ => None,
        }
    }
}

/// At parameter 0 a ray is at its origin.
pub proof fn lemma_at_zero(r: Ray)
    ensures
        r.at_spec(0) == r.orig,
{
    assert(r.dir.scaled(0) == Vec3 { x: 0, y: 0, z: 0 });
}

/// At parameter `k` (a whole number of units) a ray is `k` times its
/// direction away from its origin, at squared distance `k^2 |dir|^2`.
pub proof fn lemma_at_distance(r: Ray, k: int)
    requires
        r.wf(),
        within(k, 0x4000_0000),
    ensures
        r.at_spec(k * ONE).minus(r.orig) == (Vec3 {
            x: (r.dir.x * k) as i64,
            y: (r.dir.y * k) as i64,
            z: (r.dir.z * k) as i64,
        }),
        r.at_spec(k * ONE).minus(r.orig).norm_sq() == k * k * r.dir.norm_sq(),
{
    let one = ONE as int;
    let d = r.dir;
    assert(d.x * (k * one) == (d.x * k) * one && d.y * (k * one) == (d.y * k) * one && d.z * (k * one)
        == (d.z * k) * one) by (nonlinear_arith);
    vstd::arithmetic::div_mod::lemma_div_multiples_vanish(d.x * k, one);
    vstd::arithmetic::div_mod::lemma_div_multiples_vanish(d.y * k, one);
    vstd::arithmetic::div_mod::lemma_div_multiples_vanish(d.z * k, one);
    assert(one * (d.x * k) == (d.x * k) * one && one * (d.y * k) == (d.y * k) * one && one * (d.z * k) == (d.z * k) * one) by (nonlinear_arith);
    lemma_mul_within(d.x as int, k, WORLD_MAX as int, 0x4000_0000);
    lemma_mul_within(d.y as int, k, WORLD_MAX as int, 0x4000_0000);
    lemma_mul_within(d.z as int, k, WORLD_MAX as int, 0x4000_0000);
    let e = r.at_spec(k * ONE).minus(r.orig);
    assert(e.x == d.x * k && e.y == d.y * k && e.z == d.z * k);
    lemma_square_scaled(d.x as int, k);
    lemma_square_scaled(d.y as int, k);
    lemma_square_scaled(d.z as int, k);
    assert(k * k * (d.x * d.x) + k * k * (d.y * d.y) + k * k * (d.z * d.z) == k * k * (d.x * d.x + d.y * d.y + d.z * d.z)) by (nonlinear_arith);
}

/// At any parameter `t` a ray is `t` times its direction away from its
/// origin, rounded down to the grid in each coordinate: the exact offset
/// `d t` exceeds `ONE` times the rounded one by less than one grid step.
pub proof fn lemma_at_rounding(r: Ray, t: int)
    requires
        r.wf(),
        within(t, SCALAR_MAX as int),
    ensures
        0 <= r.dir.x * t - ONE * (r.at_spec(t).x - r.orig.x) < ONE,
        0 <= r.dir.y * t - ONE * (r.at_spec(t).y - r.orig.y) < ONE,
        0 <= r.dir.z * t - ONE * (r.at_spec(t).z - r.orig.z) < ONE,
{
    let d = r.dir;
    lemma_mul_within(d.x as int, t, WORLD_MAX as int, SCALAR_MAX as int);
    lemma_mul_within(d.y as int, t, WORLD_MAX as int, SCALAR_MAX as int);
    lemma_mul_within(d.z as int, t, WORLD_MAX as int, SCALAR_MAX as int);
    lemma_div_within(d.x * t, WORLD_MAX * SCALAR_MAX, ONE as int);
    lemma_div_within(d.y * t, WORLD_MAX * SCALAR_MAX, ONE as int);
    lemma_div_within(d.z * t, WORLD_MAX * SCALAR_MAX, ONE as int);
    vstd::arithmetic::div_mod::lemma_fundamental_div_mod(d.x * t, ONE as int);
    vstd::arithmetic::div_mod::lemma_fundamental_div_mod(d.y * t, ONE as int);
    vstd::arithmetic::div_mod::lemma_fundamental_div_mod(d.z * t, ONE as int);
}

/// `(a k)^2 = k^2 a^2`.
proof fn lemma_square_scaled(a: int, k: int)
    ensures
        (a * k) * (a * k) == k * k * (a * a),
{
    assert((a * k) * (a * k) == k * k * (a * a)) by (nonlinear_arith);
}

/// Every coordinate of the point at `t` lies in the representable world.
pub open spec fn point_fits(r: Ray, t: int) -> bool {
    within(r.orig.x + fx_mul(r.dir.x as int, t), WORLD_MAX as int)
        && within(r.orig.y + fx_mul(r.dir.y as int, t), WORLD_MAX as int)
        && within(r.orig.z + fx_mul(r.dir.z as int, t), WORLD_MAX as int)
}

/// `o + d * t`, when it lies within the world bound.
fn coord_at(o: i64, d: i64, t: i64) -> (r: Option<i64>)
    requires
        within(o as int, WORLD_MAX as int),
        within(d as int, WORLD_MAX as int),
    ensures
        r is Some <==> within(o + fx_mul(d as int, t as int), WORLD_MAX as int),
        r is Some ==> r->0 == o + fx_mul(d as int, t as int),
{
    proof {
        lemma_mul_within(d as int, t as int, WORLD_MAX as int, 0x8000_0000_0000_0000);
        lemma_div_within(d * t, WORLD_MAX * 0x8000_0000_0000_0000, ONE as int);
    }
    let v: i128 = (o as i128) + floor_div((d as i128) * (t as i128), ONE as i128);
    if -(WORLD_MAX as i128) <= v && v <= WORLD_MAX as i128 {
        Some(v as i64)
    } else {
        None
    }
}

} // verus!
