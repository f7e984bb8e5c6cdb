//! Three fixed-point components, used as a geometric vector, a point and a
//! linear color.
use crate::random::random_range;
use crate::fixed::{floor_div, is_sqrt_floor, isqrt, sqrt_floor, COORD_MAX, ONE, ONE_SQ, SCALAR_MAX};
use vstd::prelude::*;

verus! {

/// Magnitude, in grid units, below which a component counts as zero.
pub const NEAR_ZERO: i64 = 1;

/// Largest refractive-index ratio that `refract` accepts.
pub const ETA_MAX: i64 = 0x1_0000_0000;

/// `|v|`.
pub open spec fn magnitude(v: int) -> int {
    if v < 0 {
        -v
    } else {
        v
    }
}

/// `-m <= v <= m`.
pub open spec fn within(v: int, m: int) -> bool {
    -m <= v <= m
}

/// Fixed-point product of two scalars, rounded down.
pub open spec fn fx_mul(a: int, b: int) -> int {
    (a * b) / (ONE as int)
}

/// Fixed-point quotient of two scalars, rounded down.
pub open spec fn fx_div(a: int, k: int) -> int {
    if k > 0 {
        (a * ONE) / k
    } else {
        (-a * ONE) / (-k)
    }
}

/// A product of factors within `ma` and `mb` lies within `ma * mb`.
pub proof fn lemma_mul_within(a: int, b: int, ma: int, mb: int)
    requires
        within(a, ma),
        within(b, mb),
    ensures
        within(a * b, ma * mb),
{
    assert(-(ma * mb) <= a * b <= ma * mb) by (nonlinear_arith)
        requires
            -ma <= a <= ma,
            -mb <= b <= mb,
    ;
}

/// Dividing a value within `m` by `d`, rounding down, gives a value within
/// `m / d + 1`.
pub proof fn lemma_div_within(n: int, m: int, d: int)
    requires
        within(n, m),
        m >= 0,
        d > 0,
    ensures
        within(n / d, m / d + 1),
{
    vstd::arithmetic::div_mod::lemma_div_is_ordered(n, m, d);
    vstd::arithmetic::div_mod::lemma_div_is_ordered(-m, n, d);
    vstd::arithmetic::div_mod::lemma_fundamental_div_mod(m, d);
    vstd::arithmetic::div_mod::lemma_fundamental_div_mod(-m, d);
    let qm = m / d;
    let qn = (-m) / d;
    assert(qn >= -qm - 1) by (nonlinear_arith)
        requires
            m == d * qm + m % d,
            -m == d * qn + (-m) % d,
            0 <= m % d < d,
            0 <= (-m) % d < d,
            d > 0,
    ;
}

/// A fixed-point product of factors within `ma` and `mb` lies within `m`
/// when `ma * mb <= m * ONE`.
pub proof fn lemma_fx_mul_within(a: int, b: int, ma: int, mb: int, m: int)
    requires
        within(a, ma),
        within(b, mb),
        ma * mb <= m * ONE,
    ensures
        within(fx_mul(a, b), m),
{
    let one = ONE as int;
    lemma_mul_within(a, b, ma, mb);
    vstd::arithmetic::div_mod::lemma_div_is_ordered(a * b, m * one, one);
    vstd::arithmetic::div_mod::lemma_div_is_ordered(-(m * one), a * b, one);
    vstd::arithmetic::div_mod::lemma_div_multiples_vanish(m, one);
    vstd::arithmetic::div_mod::lemma_div_multiples_vanish(-m, one);
    assert(one * m == m * one && one * (-m) == -(m * one)) by (nonlinear_arith);
}

/// Exact product of two machine integers.
fn mul_wide(a: i64, b: i64) -> (r: i128)
    ensures
        r == a * b,
{
    proof {
        lemma_mul_within(a as int, b as int, 0x8000_0000_0000_0000, 0x8000_0000_0000_0000);
    }
    (a as i128) * (b as i128)
}

/// Fixed-point product of a component and a scalar factor.
pub(crate) fn scalar_mul(a: i64, b: i64) -> (r: i64)
    requires
        within(a as int, COORD_MAX as int),
        within(b as int, SCALAR_MAX as int),
    ensures
        r == fx_mul(a as int, b as int),
        within(r as int, 0x1000_0000_0000_0001),
{
    proof {
        lemma_mul_within(a as int, b as int, COORD_MAX as int, SCALAR_MAX as int);
        lemma_div_within(a * b, COORD_MAX * SCALAR_MAX, ONE as int);
    }
    let p: i128 = mul_wide(a, b);
    floor_div(p, ONE as i128) as i64
}

/// Fixed-point quotient of a component by a nonzero scalar.
pub(crate) fn scalar_div(a: i64, k: i64) -> (r: i64)
    requires
        within(a as int, COORD_MAX as int),
        k != 0,
    ensures
        r == fx_div(a as int, k as int),
        within(r as int, COORD_MAX * ONE + 1),
{
    proof {
        lemma_mul_within(a as int, ONE as int, COORD_MAX as int, ONE as int);
    }
    let n: i128 = (a as i128) * (ONE as i128);
    if k > 0 {
        proof {
            lemma_div_within(n as int, COORD_MAX * ONE, k as int);
            vstd::arithmetic::div_mod::lemma_div_is_ordered_by_denominator(COORD_MAX * ONE, 1, k as int);
        }
        floor_div(n, k as i128) as i64
    } else {
        proof {
            lemma_div_within(-n, COORD_MAX * ONE, -k);
            assert((-a) * ONE == -(a * ONE)) by (nonlinear_arith);
            vstd::arithmetic::div_mod::lemma_div_is_ordered_by_denominator(COORD_MAX * ONE, 1, -k);
        }
        floor_div(-n, -(k as i128)) as i64
    }
}

#[derive(Clone, Copy, Debug, PartialEq, Eq, Structural)]
pub struct Vec3 {
    pub x: i64,
    pub y: i64,
    pub z: i64,
}

/// A position in space.
pub type Point3 = Vec3;

/// A linear color, one component per channel, `ONE` standing for full intensity.
pub type Color = Vec3;

/// The dot product of the exact values, at scale `ONE * ONE`.
pub open spec fn dot_exact(a: Vec3, b: Vec3) -> int {
    a.x * b.x + a.y * b.y + a.z * b.z
}

/// The dot product at scale `ONE`, rounded down.
pub open spec fn dot_spec(a: Vec3, b: Vec3) -> int {
    dot_exact(a, b) / (ONE as int)
}

/// Exact dot product of two bounded vectors.
pub(crate) fn dot_wide(a: &Vec3, b: &Vec3) -> (r: i128)
    requires
        a.bounded(),
        b.bounded(),
    ensures
        r == dot_exact(*a, *b),
        within(r as int, 0x300_0000_0000_0000_0000),
{
    proof {
        lemma_mul_within(a.x as int, b.x as int, COORD_MAX as int, COORD_MAX as int);
        lemma_mul_within(a.y as int, b.y as int, COORD_MAX as int, COORD_MAX as int);
        lemma_mul_within(a.z as int, b.z as int, COORD_MAX as int, COORD_MAX as int);
    }
    mul_wide(a.x, b.x) + mul_wide(a.y, b.y) + mul_wide(a.z, b.z)
}

/// `(a * b - c * d) / ONE`, rounded down.
fn cross_term(a: i64, b: i64, c: i64, d: i64) -> (r: i64)
    requires
        within(a as int, COORD_MAX as int),
        within(b as int, COORD_MAX as int),
        within(c as int, COORD_MAX as int),
        within(d as int, COORD_MAX as int),
    ensures
        r == (a * b - c * d) / (ONE as int),
{
    proof {
        lemma_mul_within(a as int, b as int, COORD_MAX as int, COORD_MAX as int);
        lemma_mul_within(c as int, d as int, COORD_MAX as int, COORD_MAX as int);
        lemma_div_within(a * b - c * d, 0x200_0000_0000_0000_0000, ONE as int);
    }
    floor_div(mul_wide(a, b) - mul_wide(c, d), ONE as i128) as i64
}

/// `x * ONE * ONE / l`, rounded down: one component of a unit vector.
fn unit_coord(x: i64, l: u64) -> (r: i64)
    requires
        within(x as int, COORD_MAX as int),
        within(x * ONE, l as int),
        l >= ONE,
    ensures
        r == fx_div(x * ONE, l as int),
        r == (x * (ONE * ONE)) / (l as int),
        within(r as int, ONE as int),
{
    proof {
        lemma_unit_component(x * ONE, l as int);
        lemma_mul_within(x as int, ONE * ONE, COORD_MAX as int, ONE * ONE);
        assert((x * ONE) * ONE == x * (ONE * ONE)) by (nonlinear_arith);
    }
    floor_div((x as i128) * ONE_SQ, l as i128) as i64
}

/// A component scaled by `ONE` is no longer than the length at scale
/// `ONE * ONE`.
proof fn lemma_scaled_component(c: int, n: int, l: int)
    requires
        c * c <= n,
        is_sqrt_floor(n * (ONE * ONE), l),
    ensures
        within(c * ONE, l),
{
    let one = ONE as int;
    assert((c * one) * (c * one) <= n * (one * one)) by (nonlinear_arith)
        requires
            c * c <= n,
            one > 0,
    ;
    lemma_component_within_length(c * one, n * (one * one), l);
}

/// One rounded component `r = floor(X / l)` against the exact `X / l`:
/// `(l r)^2 <= (|X| + l)^2` and `(l r)^2 >= X^2 - 2 |X| l`.
proof fn lemma_rounded_square(xx: int, l: int, r: int)
    requires
        l > 0,
        l * r <= xx < l * r + l,
    ensures
        (l * r) * (l * r) <= xx * xx + 2 * magnitude(xx) * l + l * l,
        (l * r) * (l * r) >= xx * xx - 2 * magnitude(xx) * l,
{
    let lr = l * r;
    if xx >= 0 {
        if lr >= 0 {
            assert(lr * lr <= xx * xx) by (nonlinear_arith)
                requires
                    0 <= lr <= xx,
            ;
        } else {
            assert(lr * lr <= (xx + l) * (xx + l)) by (nonlinear_arith)
                requires
                    xx - l < lr < 0,
                    xx >= 0,
            ;
        }
        if xx >= l {
            assert(lr * lr >= (xx - l) * (xx - l)) by (nonlinear_arith)
                requires
                    0 <= xx - l < lr,
            ;
        } else {
            assert(xx * xx - 2 * xx * l <= 0) by (nonlinear_arith)
                requires
                    0 <= xx < l,
            ;
            assert(lr * lr >= 0) by (nonlinear_arith);
        }
        assert((xx + l) * (xx + l) == xx * xx + 2 * xx * l + l * l) by (nonlinear_arith);
        assert((xx - l) * (xx - l) == xx * xx - 2 * xx * l + l * l) by (nonlinear_arith);
        assert(xx * xx <= xx * xx + 2 * xx * l + l * l) by (nonlinear_arith)
            requires
                xx >= 0,
                l > 0,
        ;
    } else {
        assert(lr * lr >= xx * xx) by (nonlinear_arith)
            requires
                lr <= xx < 0,
        ;
        assert(lr * lr <= (l - xx) * (l - xx)) by (nonlinear_arith)
            requires
                xx - l < lr <= xx < 0,
        ;
        assert((l - xx) * (l - xx) == xx * xx + 2 * (-xx) * l + l * l) by (nonlinear_arith);
        assert(xx * xx - 2 * (-xx) * l <= xx * xx) by (nonlinear_arith)
            requires
                xx < 0,
                l > 0,
        ;
    }
}

/// `(|x| + |y| + |z|)^2 <= 3 (x^2 + y^2 + z^2)`.
proof fn lemma_abs_sum_square(x: int, y: int, z: int)
    ensures
        (magnitude(x) + magnitude(y) + magnitude(z)) * (magnitude(x) + magnitude(y) + magnitude(z)) <= 3 * (x * x + y * y + z * z),
{
    let a = magnitude(x);
    let b = magnitude(y);
    let c = magnitude(z);
    assert(a * a == x * x && b * b == y * y && c * c == z * z) by (nonlinear_arith)
        requires
            a == magnitude(x),
            b == magnitude(y),
            c == magnitude(z),
    ;
    assert((a - b) * (a - b) >= 0 && (b - c) * (b - c) >= 0 && (a - c) * (a - c) >= 0) by (nonlinear_arith);
    assert((a + b + c) * (a + b + c) <= 3 * (a * a + b * b + c * c)) by (nonlinear_arith)
        requires
            (a - b) * (a - b) >= 0,
            (b - c) * (b - c) >= 0,
            (a - c) * (a - c) >= 0,
    ;
}

/// The components `r = floor(v ONE^2 / l)`, `l` the length of `v` at scale
/// `ONE^2` rounded down, have a squared length within a few grid steps of
/// `ONE^2`.
proof fn lemma_unit_norm(x: int, y: int, z: int, n: int, l: int, rx: int, ry: int, rz: int)
    requires
        n == x * x + y * y + z * z,
        n >= 1,
        is_sqrt_floor(n * (ONE * ONE), l),
        l >= ONE,
        rx == (x * (ONE * ONE)) / l,
        ry == (y * (ONE * ONE)) / l,
        rz == (z * (ONE * ONE)) / l,
    ensures
        ONE * ONE - 8 * ONE < rx * rx + ry * ry + rz * rz <= ONE * ONE + 6 * ONE + 8,
{
    let one = ONE as int;
    let k = one * one;
    let xx = x * k;
    let yy = y * k;
    let zz = z * k;
    vstd::arithmetic::div_mod::lemma_fundamental_div_mod(xx, l);
    vstd::arithmetic::div_mod::lemma_fundamental_div_mod(yy, l);
    vstd::arithmetic::div_mod::lemma_fundamental_div_mod(zz, l);
    assert(l * rx <= xx < l * rx + l);
    assert(l * ry <= yy < l * ry + l);
    assert(l * rz <= zz < l * rz + l);
    lemma_rounded_square(xx, l, rx);
    lemma_rounded_square(yy, l, ry);
    lemma_rounded_square(zz, l, rz);
    let s = magnitude(x) + magnitude(y) + magnitude(z);
    lemma_abs_sum_square(x, y, z);
    assert(magnitude(xx) + magnitude(yy) + magnitude(zz) == s * k) by (nonlinear_arith)
        requires
            xx == x * k,
            yy == y * k,
            zz == z * k,
            k > 0,
            s == magnitude(x) + magnitude(y) + magnitude(z),
    ;
    assert(xx * xx == (x * x) * (k * k)) by (nonlinear_arith)
        requires
            xx == x * k,
    ;
    assert(yy * yy == (y * y) * (k * k)) by (nonlinear_arith)
        requires
            yy == y * k,
    ;
    assert(zz * zz == (z * z) * (k * k)) by (nonlinear_arith)
        requires
            zz == z * k,
    ;
    vstd::arithmetic::mul::lemma_mul_is_distributive_add_other_way(k * k, x * x, y * y);
    vstd::arithmetic::mul::lemma_mul_is_distributive_add_other_way(k * k, x * x + y * y, z * z);
    assert(n * k * k == n * (k * k)) by (nonlinear_arith);
    assert(xx * xx + yy * yy + zz * zz == n * k * k);
    let rr = rx * rx + ry * ry + rz * rz;
    assert(l * l * rr == (l * rx) * (l * rx) + (l * ry) * (l * ry) + (l * rz) * (l * rz)) by (nonlinear_arith)
        requires
            rr == rx * rx + ry * ry + rz * rz,
    ;
    let nk = n * k;
    assert(l * l <= nk < (l + 1) * (l + 1));
    // s * ONE < 2 (l + 1)
    assert((s * one) * (s * one) < 4 * ((l + 1) * (l + 1))) by (nonlinear_arith)
        requires
            s * s <= 3 * n,
            nk == n * (one * one),
            nk < (l + 1) * (l + 1),
            one > 0,
    ;
    assert(s * one < 2 * (l + 1)) by (nonlinear_arith)
        requires
            (s * one) * (s * one) < 4 * ((l + 1) * (l + 1)),
            l >= 0,
    ;
    // upper bound
    assert(l * l * rr <= nk * k + 2 * (s * k) * l + 3 * (l * l)) by (nonlinear_arith)
        requires
            l * l * rr == (l * rx) * (l * rx) + (l * ry) * (l * ry) + (l * rz) * (l * rz),
            (l * rx) * (l * rx) <= xx * xx + 2 * magnitude(xx) * l + l * l,
            (l * ry) * (l * ry) <= yy * yy + 2 * magnitude(yy) * l + l * l,
            (l * rz) * (l * rz) <= zz * zz + 2 * magnitude(zz) * l + l * l,
            xx * xx + yy * yy + zz * zz == n * k * k,
            magnitude(xx) + magnitude(yy) + magnitude(zz) == s * k,
            nk == n * k,
    ;
    assert(nk * k + 2 * (s * k) * l + 3 * (l * l) < (k + 6 * one + 8) * (l * l)) by (nonlinear_arith)
        requires
            nk < (l + 1) * (l + 1),
            s * one < 2 * (l + 1),
            k == one * one,
            l >= one,
            one > 0,
    ;
    assert(rr <= k + 6 * one + 8) by (nonlinear_arith)
        requires
            l * l * rr < (k + 6 * one + 8) * (l * l),
            l > 0,
    ;
    // lower bound
    assert(l * l * rr >= nk * k - 2 * (s * k) * l) by (nonlinear_arith)
        requires
            l * l * rr == (l * rx) * (l * rx) + (l * ry) * (l * ry) + (l * rz) * (l * rz),
            (l * rx) * (l * rx) >= xx * xx - 2 * magnitude(xx) * l,
            (l * ry) * (l * ry) >= yy * yy - 2 * magnitude(yy) * l,
            (l * rz) * (l * rz) >= zz * zz - 2 * magnitude(zz) * l,
            xx * xx + yy * yy + zz * zz == n * k * k,
            magnitude(xx) + magnitude(yy) + magnitude(zz) == s * k,
            nk == n * k,
    ;
    assert(nk * k - 2 * (s * k) * l > (k - 8 * one) * (l * l)) by (nonlinear_arith)
        requires
            nk >= l * l,
            s * one < 2 * (l + 1),
            k == one * one,
            l >= one,
            one > 0,
    ;
    assert(rr > k - 8 * one) by (nonlinear_arith)
        requires
            l * l * rr > (k - 8 * one) * (l * l),
            l > 0,
    ;
}

/// A component is no longer than the rounded-down length it belongs to.
proof fn lemma_component_within_length(c: int, n: int, l: int)
    requires
        c * c <= n,
        is_sqrt_floor(n, l),
    ensures
        within(c, l),
{
    assert(within(c, l)) by (nonlinear_arith)
        requires
            c * c <= n,
            n < (l + 1) * (l + 1),
            l >= 0,
    ;
}

/// A component no longer than `l`, divided by `l`, lies within `[-1, 1]`.
pub proof fn lemma_unit_component(c: int, l: int)
    requires
        within(c, l),
        l > 0,
    ensures
        within(fx_div(c, l), ONE as int),
{
    let one = ONE as int;
    assert(-(l * one) <= c * one <= l * one) by (nonlinear_arith)
        requires
            -l <= c <= l,
            one > 0,
    ;
    vstd::arithmetic::div_mod::lemma_div_is_ordered(c * one, l * one, l);
    vstd::arithmetic::div_mod::lemma_div_is_ordered(-(l * one), c * one, l);
    vstd::arithmetic::div_mod::lemma_div_multiples_vanish(one, l);
    vstd::arithmetic::div_mod::lemma_div_multiples_vanish(-one, l);
    assert(l * (-one) == -(l * one)) by (nonlinear_arith);
}

/// The rounded dot product has the sign of the exact one.
pub proof fn lemma_dot_sign(a: Vec3, b: Vec3)
    ensures
        (dot_spec(a, b) < 0) == (dot_exact(a, b) < 0),
{
    let e = dot_exact(a, b);
    if e >= 0 {
        vstd::arithmetic::div_mod::lemma_div_pos_is_pos(e, ONE as int);
    } else {
        vstd::arithmetic::div_mod::lemma_fundamental_div_mod(e, ONE as int);
    }
}

/// A sum of squares is never negative.
pub proof fn lemma_norm_sq_nonneg(v: Vec3)
    ensures
        v.norm_sq() >= 0,
{
    assert(v.x * v.x >= 0 && v.y * v.y >= 0 && v.z * v.z >= 0) by (nonlinear_arith);
}

/// A nonzero vector has a positive sum of squares.
pub proof fn lemma_norm_sq_pos(v: Vec3)
    requires
        !v.is_zero(),
    ensures
        v.norm_sq() >= 1,
{
    assert(v.x * v.x >= 0 && v.y * v.y >= 0 && v.z * v.z >= 0) by (nonlinear_arith);
    assert(v.x != 0 ==> v.x * v.x >= 1) by (nonlinear_arith);
    assert(v.y != 0 ==> v.y * v.y >= 1) by (nonlinear_arith);
    assert(v.z != 0 ==> v.z * v.z >= 1) by (nonlinear_arith);
}

impl Vec3 {
    /// Every component lies within `[-m, m]`.
    pub open spec fn within(self, m: int) -> bool {
        within(self.x as int, m) && within(self.y as int, m) && within(self.z as int, m)
    }

    /// The range on which products of components stay exact.
    pub open spec fn bounded(self) -> bool {
        self.within(COORD_MAX as int)
    }

    /// Every component lies within `[-1, 1]`.
    pub open spec fn unit_bounded(self) -> bool {
        self.within(ONE as int)
    }

    /// Every component is below `NEAR_ZERO` in magnitude.
    pub open spec fn is_near_zero(self) -> bool {
        within(self.x as int, NEAR_ZERO - 1) && within(self.y as int, NEAR_ZERO - 1) && within(
            self.z as int,
            NEAR_ZERO - 1,
        )
    }

    pub open spec fn is_zero(self) -> bool {
        self.x == 0 && self.y == 0 && self.z == 0
    }

    /// The sum of the squares of the components, at scale `ONE * ONE`.
    pub open spec fn norm_sq(self) -> int {
        dot_exact(self, self)
    }

    pub open spec fn plus(self, o: Vec3) -> Vec3 {
        Vec3 { x: (self.x + o.x) as i64, y: (self.y + o.y) as i64, z: (self.z + o.z) as i64 }
    }

    pub open spec fn minus(self, o: Vec3) -> Vec3 {
        Vec3 { x: (self.x - o.x) as i64, y: (self.y - o.y) as i64, z: (self.z - o.z) as i64 }
    }

    pub open spec fn negated(self) -> Vec3 {
        Vec3 { x: -self.x as i64, y: -self.y as i64, z: -self.z as i64 }
    }

    pub open spec fn scaled(self, k: int) -> Vec3 {
        Vec3 {
            x: fx_mul(self.x as int, k) as i64,
            y: fx_mul(self.y as int, k) as i64,
            z: fx_mul(self.z as int, k) as i64,
        }
    }

    /// The componentwise product.
    pub open spec fn times(self, o: Vec3) -> Vec3 {
        Vec3 {
            x: fx_mul(self.x as int, o.x as int) as i64,
            y: fx_mul(self.y as int, o.y as int) as i64,
            z: fx_mul(self.z as int, o.z as int) as i64,
        }
    }

    /// The cross product.
    pub open spec fn crossed(self, o: Vec3) -> Vec3 {
        Vec3 {
            x: ((self.y * o.z - self.z * o.y) / (ONE as int)) as i64,
            y: ((self.z * o.x - self.x * o.z) / (ONE as int)) as i64,
            z: ((self.x * o.y - self.y * o.x) / (ONE as int)) as i64,
        }
    }

    pub open spec fn divided(self, k: int) -> Vec3 {
        Vec3 {
            x: fx_div(self.x as int, k) as i64,
            y: fx_div(self.y as int, k) as i64,
            z: fx_div(self.z as int, k) as i64,
        }
    }

    /// The length of `self`, rounded down.
    pub open spec fn len(self) -> int {
        isqrt(self.norm_sq())
    }

    /// The length of `self` at scale `ONE * ONE`, rounded down.
    pub open spec fn fine_len(self) -> int {
        isqrt(self.norm_sq() * (ONE * ONE))
    }

    /// `self` divided by its length, each component rounded down.
    pub open spec fn unit(self) -> Vec3 {
        let l = self.fine_len();
        Vec3 {
            x: fx_div(self.x * ONE, l) as i64,
            y: fx_div(self.y * ONE, l) as i64,
            z: fx_div(self.z * ONE, l) as i64,
        }
    }

    /// `self` reflected about the normal `n`: `v - 2 (v . n) n`.
    pub open spec fn reflected(self, n: Vec3) -> Vec3 {
        self.minus(n.scaled(2 * dot_spec(self, n)))
    }

    /// `self` refracted through a surface of normal `n` with index ratio `eta`:
    /// the part across the normal is bent by `eta`, the part along it is
    /// what completes a unit vector.
    pub open spec fn refracted(self, n: Vec3, eta: int) -> Vec3 {
        let u = self.unit();
        let cos_theta = -dot_spec(u, n);
        let perp = u.plus(n.scaled(cos_theta)).scaled(eta);
        let rest = (ONE * ONE) - perp.norm_sq();
        let along = if rest > 0 { isqrt(rest) } else { 0 };
        perp.plus(n.scaled(-along))
    }

    pub fn new(a: i64, b: i64, c: i64) -> (r: Vec3)
        ensures
            r == (Vec3 { x: a, y: b, z: c }),
    {
        Vec3 { x: a, y: b, z: c }
    }

    /// A vector whose components are drawn uniformly from `[0, 1)`.
    pub fn random(rng: &mut rand::rngs::StdRng) -> (r: Vec3)
        ensures
            0 <= r.x < ONE,
            0 <= r.y < ONE,
            0 <= r.z < ONE,
    {
        let x = random_range(rng, 0, ONE);
        let y = random_range(rng, 0, ONE);
        let z = random_range(rng, 0, ONE);
        Vec3 { x, y, z }
    }

    /// A vector whose components are drawn uniformly from `[min, max)`.
    pub fn random_in_range(rng: &mut rand::rngs::StdRng, min: i64, max: i64) -> (r: Vec3)
        requires
            min < max,
        ensures
            min <= r.x < max,
            min <= r.y < max,
            min <= r.z < max,
    {
        let x = random_range(rng, min, max);
        let y = random_range(rng, min, max);
        let z = random_range(rng, min, max);
        Vec3 { x, y, z }
    }

    pub fn x(&self) -> (r: i64)
        ensures
            r == self.x,
    {
        self.x
    }

    pub fn y(&self) -> (r: i64)
        ensures
            r == self.y,
    {
        self.y
    }

    pub fn z(&self) -> (r: i64)
        ensures
            r == self.z,
    {
        self.z
    }

    pub fn add(self, rhs: Vec3) -> (r: Vec3)
        requires
            within(self.x + rhs.x, i64::MAX as int),
            within(self.y + rhs.y, i64::MAX as int),
            within(self.z + rhs.z, i64::MAX as int),
        ensures
            r.x == self.x + rhs.x,
            r.y == self.y + rhs.y,
            r.z == self.z + rhs.z,
            r == self.plus(rhs),
    {
        Vec3 { x: self.x + rhs.x, y: self.y + rhs.y, z: self.z + rhs.z }
    }

    pub fn sub(self, rhs: Vec3) -> (r: Vec3)
        requires
            within(self.x - rhs.x, i64::MAX as int),
            within(self.y - rhs.y, i64::MAX as int),
            within(self.z - rhs.z, i64::MAX as int),
        ensures
            r.x == self.x - rhs.x,
            r.y == self.y - rhs.y,
            r.z == self.z - rhs.z,
            r == self.minus(rhs),
    {
        Vec3 { x: self.x - rhs.x, y: self.y - rhs.y, z: self.z - rhs.z }
    }

    pub fn neg(self) -> (r: Vec3)
        requires
            self.within(i64::MAX as int),
        ensures
            r.x == -self.x,
            r.y == -self.y,
            r.z == -self.z,
            r == self.negated(),
    {
        Vec3 { x: -self.x, y: -self.y, z: -self.z }
    }

    /// Multiplies every component by the fixed-point scalar `k`.
    pub fn scale(self, k: i64) -> (r: Vec3)
        requires
            self.bounded(),
            within(k as int, SCALAR_MAX as int),
        ensures
            r.x == fx_mul(self.x as int, k as int),
            r.y == fx_mul(self.y as int, k as int),
            r.z == fx_mul(self.z as int, k as int),
            r == self.scaled(k as int),
            r.within(0x1000_0000_0000_0001),
    {
        Vec3 { x: scalar_mul(self.x, k), y: scalar_mul(self.y, k), z: scalar_mul(self.z, k) }
    }

    /// Scales `self` in place by the fixed-point scalar `k`.
    pub fn mul_assign(&mut self, k: i64)
        requires
            old(self).bounded(),
            within(k as int, SCALAR_MAX as int),
        ensures
            final(self).x == fx_mul(old(self).x as int, k as int),
            final(self).y == fx_mul(old(self).y as int, k as int),
            final(self).z == fx_mul(old(self).z as int, k as int),
    {
        *self = self.scale(k);
    }

    /// Divides every component by the nonzero fixed-point scalar `k`.
    pub fn div(self, k: i64) -> (r: Vec3)
        requires
            self.bounded(),
            k != 0,
        ensures
            r.x == fx_div(self.x as int, k as int),
            r.y == fx_div(self.y as int, k as int),
            r.z == fx_div(self.z as int, k as int),
            r == self.divided(k as int),
    {
        Vec3 { x: scalar_div(self.x, k), y: scalar_div(self.y, k), z: scalar_div(self.z, k) }
    }

    /// Componentwise quotient; every component of `rhs` must be nonzero.
    pub fn div_elem(self, rhs: Vec3) -> (r: Vec3)
        requires
            self.bounded(),
            rhs.x != 0,
            rhs.y != 0,
            rhs.z != 0,
        ensures
            r.x == fx_div(self.x as int, rhs.x as int),
            r.y == fx_div(self.y as int, rhs.y as int),
            r.z == fx_div(self.z as int, rhs.z as int),
    {
        Vec3 { x: scalar_div(self.x, rhs.x), y: scalar_div(self.y, rhs.y), z: scalar_div(self.z, rhs.z) }
    }

    /// Componentwise product, as used to attenuate a color.
    pub fn mul(self, rhs: Vec3) -> (r: Vec3)
        requires
            self.bounded(),
            rhs.bounded(),
        ensures
            r.x == fx_mul(self.x as int, rhs.x as int),
            r.y == fx_mul(self.y as int, rhs.y as int),
            r.z == fx_mul(self.z as int, rhs.z as int),
            r == self.times(rhs),
    {
        Vec3 { x: scalar_mul(self.x, rhs.x), y: scalar_mul(self.y, rhs.y), z: scalar_mul(self.z, rhs.z) }
    }

    pub fn dot(&self, rhs: &Vec3) -> (r: i64)
        requires
            self.bounded(),
            rhs.bounded(),
        ensures
            r == dot_spec(*self, *rhs),
    {
        let e: i128 = dot_wide(self, rhs);
        proof {
            lemma_div_within(e as int, 0x300_0000_0000_0000_0000, ONE as int);
        }
        floor_div(e, ONE as i128) as i64
    }

    pub fn length_squared(&self) -> (r: i64)
        requires
            self.bounded(),
        ensures
            r == dot_spec(*self, *self),
            r >= 0,
    {
        proof {
            lemma_norm_sq_nonneg(*self);
            vstd::arithmetic::div_mod::lemma_div_pos_is_pos(self.norm_sq(), ONE as int);
        }
        self.dot(self)
    }

    /// Euclidean length, rounded down.
    pub fn length(&self) -> (r: i64)
        requires
            self.bounded(),
        ensures
            is_sqrt_floor(self.norm_sq(), r as int),
            r == self.len(),
            self.is_zero() <==> r == 0,
            0 <= r <= 2 * COORD_MAX,
    {
        let e: i128 = dot_wide(self, self);
        proof {
            lemma_norm_sq_nonneg(*self);
        }
        let l: u64 = sqrt_floor(e as u128);
        proof {
            let li = l as int;
            let n = self.norm_sq();
            assert(li <= 2 * COORD_MAX) by (nonlinear_arith)
                requires
                    li * li <= n,
                    n <= 0x300_0000_0000_0000_0000,
                    li >= 0,
            ;
            if !self.is_zero() {
                lemma_norm_sq_pos(*self);
                assert(li > 0) by (nonlinear_arith)
                    requires
                        n < (li + 1) * (li + 1),
                        n >= 1,
                        li >= 0,
                ;
            } else {
                assert(n == 0);
                assert(li == 0) by (nonlinear_arith)
                    requires
                        li * li <= 0,
                        li >= 0,
                ;
            }
        }
        l as i64
    }

    /// `self` divided by its length; needs a nonzero vector. The length is
    /// taken at scale `ONE * ONE`, so that the result has length 1 up to a
    /// few grid steps.
    pub fn normalize(self) -> (r: Vec3)
        requires
            self.bounded(),
            !self.is_zero(),
        ensures
            r == self.unit(),
            r.unit_bounded(),
            ONE * ONE - 8 * ONE < r.norm_sq() <= ONE * ONE + 6 * ONE + 8,
    {
        let n: i128 = dot_wide(&self, &self);
        proof {
            lemma_norm_sq_pos(self);
            assert(n * ONE_SQ <= 0x300_0000_0000_0000_0000 * 0x1_0000_0000);
        }
        let m: i128 = n * ONE_SQ;
        let l: u64 = sqrt_floor(m as u128);
        let ghost li = l as int;
        proof {
            let one = ONE as int;
            assert(self.x * self.x <= n && self.y * self.y <= n && self.z * self.z <= n) by (nonlinear_arith)
                requires
                    n == self.x * self.x + self.y * self.y + self.z * self.z,
            ;
            lemma_scaled_component(self.x as int, n as int, li);
            lemma_scaled_component(self.y as int, n as int, li);
            lemma_scaled_component(self.z as int, n as int, li);
            assert(li >= one) by (nonlinear_arith)
                requires
                    n * (one * one) < (li + 1) * (li + 1),
                    n >= 1,
                    li >= 0,
                    one > 0,
            ;
            lemma_unit_component(self.x * one, li);
            lemma_unit_component(self.y * one, li);
            lemma_unit_component(self.z * one, li);
        }
        let rx = unit_coord(self.x, l);
        let ry = unit_coord(self.y, l);
        let rz = unit_coord(self.z, l);
        let r = Vec3 { x: rx, y: ry, z: rz };
        proof {
            lemma_unit_norm(self.x as int, self.y as int, self.z as int, n as int, li, rx as int, ry as int, rz as int);
        }
        r
    }

    /// `self` reflected about the surface normal `n`.
    pub fn reflect(&self, n: &Vec3) -> (r: Vec3)
        requires
            self.bounded(),
            n.unit_bounded(),
        ensures
            r == self.reflected(*n),
            r.within(8 * COORD_MAX),
    {
        let d = self.dot(n);
        proof {
            lemma_mul_within(self.x as int, n.x as int, COORD_MAX as int, ONE as int);
            lemma_mul_within(self.y as int, n.y as int, COORD_MAX as int, ONE as int);
            lemma_mul_within(self.z as int, n.z as int, COORD_MAX as int, ONE as int);
            lemma_div_within(dot_exact(*self, *n), 3 * COORD_MAX * ONE, ONE as int);
        }
        proof {
            lemma_fx_mul_within(n.x as int, 2 * d, ONE as int, 7 * COORD_MAX, 7 * COORD_MAX);
            lemma_fx_mul_within(n.y as int, 2 * d, ONE as int, 7 * COORD_MAX, 7 * COORD_MAX);
            lemma_fx_mul_within(n.z as int, 2 * d, ONE as int, 7 * COORD_MAX, 7 * COORD_MAX);
        }
        let s = n.scale(2 * d);
        self.sub(s)
    }

    /// `self` refracted through a surface of unit normal `n`, `eta` being the
    /// ratio of the refractive indices; needs a nonzero `self`.
    pub fn refract(&self, n: &Vec3, eta: i64) -> (r: Vec3)
        requires
            self.bounded(),
            !self.is_zero(),
            n.unit_bounded(),
            0 <= eta <= ETA_MAX,
        ensures
            r == self.refracted(*n, eta as int),
            r.bounded(),
    {
        let u = self.normalize();
        let c = u.dot(n);
        proof {
            lemma_mul_within(u.x as int, n.x as int, ONE as int, ONE as int);
            lemma_mul_within(u.y as int, n.y as int, ONE as int, ONE as int);
            lemma_mul_within(u.z as int, n.z as int, ONE as int, ONE as int);
            lemma_div_within(dot_exact(u, *n), 3 * ONE * ONE, ONE as int);
        }
        let cos_theta = -c;
        let along_n = n.scale(cos_theta);
        proof {
            lemma_mul_within(n.x as int, cos_theta as int, ONE as int, 3 * ONE + 1);
            lemma_mul_within(n.y as int, cos_theta as int, ONE as int, 3 * ONE + 1);
            lemma_mul_within(n.z as int, cos_theta as int, ONE as int, 3 * ONE + 1);
            lemma_div_within(n.x * cos_theta, ONE * (3 * ONE + 1), ONE as int);
            lemma_div_within(n.y * cos_theta, ONE * (3 * ONE + 1), ONE as int);
            lemma_div_within(n.z * cos_theta, ONE * (3 * ONE + 1), ONE as int);
        }
        let sum = u.add(along_n);
        let perp = sum.scale(eta);
        proof {
            lemma_mul_within(sum.x as int, eta as int, 5 * ONE, ETA_MAX as int);
            lemma_mul_within(sum.y as int, eta as int, 5 * ONE, ETA_MAX as int);
            lemma_mul_within(sum.z as int, eta as int, 5 * ONE, ETA_MAX as int);
            lemma_div_within(sum.x * eta, 5 * ONE * ETA_MAX, ONE as int);
            lemma_div_within(sum.y * eta, 5 * ONE * ETA_MAX, ONE as int);
            lemma_div_within(sum.z * eta, 5 * ONE * ETA_MAX, ONE as int);
            lemma_norm_sq_nonneg(perp);
        }
        let rest: i128 = (ONE as i128) * (ONE as i128) - dot_wide(&perp, &perp);
        let along: i64 = if rest > 0 {
            let m = sqrt_floor(rest as u128);
            proof {
                let mi = m as int;
                assert(mi <= ONE) by (nonlinear_arith)
                    requires
                        mi * mi <= rest,
                        rest <= ONE * ONE,
                        mi >= 0,
                ;
            }
            m as i64
        } else {
            0
        };
        proof {
            lemma_mul_within(n.x as int, -along as int, ONE as int, ONE as int);
            lemma_mul_within(n.y as int, -along as int, ONE as int, ONE as int);
            lemma_mul_within(n.z as int, -along as int, ONE as int, ONE as int);
            lemma_div_within(n.x * -along, ONE * ONE, ONE as int);
            lemma_div_within(n.y * -along, ONE * ONE, ONE as int);
            lemma_div_within(n.z * -along, ONE * ONE, ONE as int);
        }
        let back = n.scale(-along);
        perp.add(back)
    }

    /// All components are below one unit of the fixed-point grid in magnitude.
    pub fn near_zero(&self) -> (r: bool)
        ensures
            r == self.is_near_zero(),
    {
        -NEAR_ZERO < self.x && self.x < NEAR_ZERO && -NEAR_ZERO < self.y && self.y < NEAR_ZERO
            && -NEAR_ZERO < self.z && self.z < NEAR_ZERO
    }

    pub fn cross(&self, rhs: &Vec3) -> (r: Vec3)
        requires
            self.bounded(),
            rhs.bounded(),
        ensures
            r.x == (self.y * rhs.z - self.z * rhs.y) / (ONE as int),
            r.y == (self.z * rhs.x - self.x * rhs.z) / (ONE as int),
            r.z == (self.x * rhs.y - self.y * rhs.x) / (ONE as int),
            r == self.crossed(*rhs),
    {
        Vec3 {
            x: cross_term(self.y, rhs.z, self.z, rhs.y),
            y: cross_term(self.z, rhs.x, self.x, rhs.z),
            z: cross_term(self.x, rhs.y, self.y, rhs.x),
        }
    }

    pub fn add_assign(&mut self, rhs: Vec3)
        requires
            within(old(self).x + rhs.x, i64::MAX as int),
            within(old(self).y + rhs.y, i64::MAX as int),
            within(old(self).z + rhs.z, i64::MAX as int),
        ensures
            final(self).x == old(self).x + rhs.x,
            final(self).y == old(self).y + rhs.y,
            final(self).z == old(self).z + rhs.z,
    {
        *self = self.add(rhs);
    }
}

} // verus!
