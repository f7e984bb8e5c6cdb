//! Fixed-point scalars: a real number `x` is held as the integer `x * ONE`.
use vstd::prelude::*;

verus! {

/// The integer that stands for the real number 1.
pub const ONE: i64 = 65536;

/// `ONE * ONE`: the integer that stands for 1 in an exact product of two scalars.
pub const ONE_SQ: i128 = 0x1_0000_0000;

/// Largest magnitude of a component that the vector operations accept.
pub const COORD_MAX: i64 = 0x10_0000_0000;

/// Largest magnitude of a component of a ray's origin or direction, and of a
/// sphere's center or radius: 8192 units.
pub const WORLD_MAX: i64 = 0x2000_0000;

/// Largest magnitude of a scalar factor that the vector operations accept.
pub const SCALAR_MAX: i64 = 0x100_0000_0000;

/// `r` is the floor of the square root of `n`.
pub open spec fn is_sqrt_floor(n: int, r: int) -> bool {
    0 <= r && r * r <= n && n < (r + 1) * (r + 1)
}

/// The floor of the square root of a nonnegative `n`.
pub open spec fn isqrt(n: int) -> int {
    choose|r: int| is_sqrt_floor(n, r)
}

/// The floor square root is unique.
pub proof fn lemma_sqrt_floor_unique(n: int, r1: int, r2: int)
    requires
        is_sqrt_floor(n, r1),
        is_sqrt_floor(n, r2),
    ensures
        r1 == r2,
{
    if r1 < r2 {
        assert((r1 + 1) * (r1 + 1) <= r2 * r2) by (nonlinear_arith)
            requires
                0 <= r1 + 1 <= r2,
        ;
    } else if r2 < r1 {
        assert((r2 + 1) * (r2 + 1) <= r1 * r1) by (nonlinear_arith)
            requires
                0 <= r2 + 1 <= r1,
        ;
    }
}

/// Every nonnegative integer has a floor square root.
pub proof fn lemma_isqrt_exists(n: int)
    requires
        n >= 0,
    ensures
        is_sqrt_floor(n, isqrt(n)),
    decreases n,
{
    if n == 0 {
        assert(is_sqrt_floor(0, 0));
    } else {
        lemma_isqrt_exists(n - 1);
        let r = isqrt(n - 1);
        if n < (r + 1) * (r + 1) {
            assert(is_sqrt_floor(n, r));
        } else {
            assert(n < (r + 2) * (r + 2)) by (nonlinear_arith)
                requires
                    n - 1 < (r + 1) * (r + 1),
                    r >= 0,
            ;
            assert(is_sqrt_floor(n, r + 1));
        }
    }
}

/// Floor division by a positive divisor.
pub fn floor_div(n: i128, d: i128) -> (q: i128)
    requires
        d > 0,
        n > i128::MIN,
    ensures
        q == n / d,
{
    if n >= 0 {
        n / d
    } else {
        let m: i128 = -n - 1;
        let q0: i128 = m / d;
        proof {
            let qq = m / d;
            let rr = m % d;
            vstd::arithmetic::div_mod::lemma_fundamental_div_mod(m as int, d as int);
            assert(m == d * qq + rr && 0 <= rr < d);
            assert(n == (-qq - 1) * d + (d - 1 - rr)) by (nonlinear_arith)
                requires
                    m == d * qq + rr,
                    n == -m - 1,
            ;
            vstd::arithmetic::div_mod::lemma_fundamental_div_mod_converse(
                n as int,
                d as int,
                -qq - 1,
                d - 1 - rr,
            );
        }
        -q0 - 1
    }
}

/// Floor of the square root, by bisection.
pub fn sqrt_floor(n: u128) -> (r: u64)
    ensures
        is_sqrt_floor(n as int, r as int),
        r == isqrt(n as int),
{
    let mut lo: u128 = 0;
    let mut hi: u128 = 0x1_0000_0000_0000_0000;
    assert(n < hi * hi) by (nonlinear_arith)
        requires
            hi == 0x1_0000_0000_0000_0000u128,
            n <= u128::MAX,
    ;
    while hi - lo > 1
        invariant
            lo < hi <= 0x1_0000_0000_0000_0000u128,
            lo * lo <= n,
            n < hi * hi,
        decreases hi - lo,
    {
        let mid: u128 = lo + (hi - lo) / 2;
        assert(mid * mid <= 0xffff_ffff_ffff_ffffu128 * 0xffff_ffff_ffff_ffffu128) by (nonlinear_arith)
            requires
                mid < 0x1_0000_0000_0000_0000u128,
        ;
        if mid * mid <= n {
            lo = mid;
        } else {
            hi = mid;
        }
    }
    assert(hi == lo + 1);
    proof {
        let r = isqrt(n as int);
        assert(is_sqrt_floor(n as int, lo as int));
        lemma_sqrt_floor_unique(n as int, r, lo as int);
    }
    lo as u64
}

} // verus!
