//! Random points drawn by rejection from the unit ball and the unit disk.
use crate::fixed::{COORD_MAX, ONE, ONE_SQ};
use crate::random::random_range;
use crate::vec3::{dot_wide, within, Point3, Vec3};
use vstd::prelude::*;

verus! {

/// Number of rejected draws after which sampling stops and a fixed point is
/// returned instead; the chance of reaching it is below `2^-900`.
pub const MAX_DRAWS: u32 = 1000;

/// Strictly inside the unit ball.
pub open spec fn in_unit_ball(p: Vec3) -> bool {
    p.norm_sq() < ONE * ONE
}

/// A direction drawn as a nonzero point of the unit ball, divided by its
/// length.
pub open spec fn is_unit_sample(u: Vec3) -> bool {
    exists|p: Vec3| in_unit_ball(p) && !p.is_zero() && u == p.unit()
}

/// The point `(x, y, z)` where it lies strictly inside the unit ball.
pub open spec fn ball_pick(x: i64, y: i64, z: i64) -> Option<Point3> {
    if x * x + y * y + z * z < ONE * ONE {
        Some(Vec3 { x, y, z })
    } else {
        None
    }
}

/// The draw `(x, y, z)` of `[-1, 1)^3`, drawn while sampling the unit ball.
pub open spec fn ball_draw(p: Point3) -> bool {
    -ONE <= p.x < ONE && -ONE <= p.y < ONE && -ONE <= p.z < ONE && ball_pick(p.x, p.y, p.z)
        == Some(p)
}

/// The draw `(x, y)` of `[-1, 1)^2`, drawn while sampling the unit disk.
pub open spec fn disk_draw(p: Point3) -> bool {
    -ONE <= p.x < ONE && -ONE <= p.y < ONE && ball_pick(p.x, p.y, 0) == Some(p)
}

/// The point `(x, y, z)` if it lies strictly inside the unit ball: the
/// acceptance test of rejection sampling.
pub fn ball_candidate(x: i64, y: i64, z: i64) -> (r: Option<Point3>)
    requires
        within(x as int, COORD_MAX as int),
        within(y as int, COORD_MAX as int),
        within(z as int, COORD_MAX as int),
    ensures
        r == ball_pick(x, y, z),
{
    let p = Vec3::new(x, y, z);
    if dot_wide(&p, &p) < ONE_SQ {
        Some(p)
    } else {
        None
    }
}

/// The point `(x, y, 0)` if it lies strictly inside the unit disk.
pub fn disk_candidate(x: i64, y: i64) -> (r: Option<Point3>)
    requires
        within(x as int, COORD_MAX as int),
        within(y as int, COORD_MAX as int),
    ensures
        r == ball_pick(x, y, 0),
{
    ball_candidate(x, y, 0)
}

/// The direction of a nonzero point: the point divided by its length.
pub fn unit_candidate(p: Point3) -> (r: Option<Vec3>)
    requires
        p.bounded(),
    ensures
        r == (if p.is_zero() {
            None
        } else {
            Some(p.unit())
        }),
        r is Some ==> r.unwrap().unit_bounded(),
        r is Some ==> ONE * ONE - 8 * ONE < r.unwrap().norm_sq() <= ONE * ONE + 6 * ONE + 8,
{
    if p.x == 0 && p.y == 0 && p.z == 0 {
        None
    } else {
        Some(p.normalize())
    }
}

/// The first of `draws`, from index `i` on, that lies strictly inside the
/// unit ball.
pub open spec fn first_in_ball_from(draws: Seq<Point3>, i: int) -> Option<Point3>
    decreases draws.len() - i,
{
    if i < 0 || i >= draws.len() {
        None
    } else {
        match ball_pick(draws[i].x, draws[i].y, draws[i].z) {
            Some(p) => Some(p),
            None => first_in_ball_from(draws, i + 1),
        }
    }
}

/// The first of the pairs `draws`, from index `i` on, that lies strictly
/// inside the unit disk, as a point of the plane `z = 0`.
pub open spec fn first_in_disk_from(draws: Seq<(i64, i64)>, i: int) -> Option<Point3>
    decreases draws.len() - i,
{
    if i < 0 || i >= draws.len() {
        None
    } else {
        match ball_pick(draws[i].0, draws[i].1, 0) {
            Some(p) => Some(p),
            None => first_in_disk_from(draws, i + 1),
        }
    }
}

/// Every draw lies in `[-1, 1)` in each coordinate.
pub open spec fn draws_in_cube(draws: Seq<Point3>) -> bool {
    forall|k: int|
        0 <= k < draws.len() ==> -ONE <= (#[trigger] draws[k]).x < ONE && -ONE <= draws[k].y < ONE
            && -ONE <= draws[k].z < ONE
}

/// Every pair lies in `[-1, 1)` in each coordinate.
pub open spec fn draws_in_square(draws: Seq<(i64, i64)>) -> bool {
    forall|k: int|
        0 <= k < draws.len() ==> -ONE <= (#[trigger] draws[k]).0 < ONE && -ONE <= draws[k].1 < ONE
}

/// The first of `draws` that lies strictly inside the unit ball.
pub fn first_in_ball(draws: &Vec<Point3>) -> (r: Option<Point3>)
    requires
        forall|k: int| 0 <= k < draws@.len() ==> (#[trigger] draws@[k]).bounded(),
    ensures
        r == first_in_ball_from(draws@, 0),
{
    let mut i: usize = 0;
    while i < draws.len()
        invariant
            i <= draws@.len(),
            forall|k: int| 0 <= k < draws@.len() ==> (#[trigger] draws@[k]).bounded(),
            first_in_ball_from(draws@, 0) == first_in_ball_from(draws@, i as int),
        decreases draws@.len() - i,
    {
        let d = draws[i];
        if let Some(p) = ball_candidate(d.x, d.y, d.z) {
            return Some(p);
        }
        i = i + 1;
    }
    None
}

/// The first of the pairs `draws` that lies strictly inside the unit disk.
pub fn first_in_disk(draws: &Vec<(i64, i64)>) -> (r: Option<Point3>)
    requires
        forall|k: int|
            0 <= k < draws@.len() ==> within((#[trigger] draws@[k]).0 as int, COORD_MAX as int) && within(
                draws@[k].1 as int,
                COORD_MAX as int,
            ),
    ensures
        r == first_in_disk_from(draws@, 0),
{
    let mut i: usize = 0;
    while i < draws.len()
        invariant
            i <= draws@.len(),
            forall|k: int|
                0 <= k < draws@.len() ==> within((#[trigger] draws@[k]).0 as int, COORD_MAX as int) && within(
                    draws@[k].1 as int,
                    COORD_MAX as int,
                ),
            first_in_disk_from(draws@, 0) == first_in_disk_from(draws@, i as int),
        decreases draws@.len() - i,
    {
        let (x, y) = draws[i];
        if let Some(p) = disk_candidate(x, y) {
            return Some(p);
        }
        i = i + 1;
    }
    None
}

impl Point3 {
    /// A point drawn uniformly from the inside of the unit ball: the first
    /// draw of `[-1, 1)^3` that lies inside it.
    pub fn random_in_unit_sphere(rng: &mut rand::rngs::StdRng) -> (r: Point3)
        ensures
            in_unit_ball(r),
            r.unit_bounded(),
            (exists|draws: Seq<Point3>| draws_in_cube(draws) && first_in_ball_from(draws, 0) == Some(r))
                || r == (Vec3 { x: 0, y: 0, z: 0 }),
    {
        let mut draws: Vec<Point3> = Vec::new();
        let mut tries: u32 = 0;
        while tries < MAX_DRAWS
            invariant
                tries <= MAX_DRAWS,
                draws_in_cube(draws@),
                forall|k: int| 0 <= k < draws@.len() ==> (#[trigger] draws@[k]).bounded(),
                first_in_ball_from(draws@, 0) is None,
            decreases MAX_DRAWS - tries,
        {
            let p = Vec3::random_in_range(rng, -ONE, ONE);
            let ghost before = draws@;
            draws.push(p);
            proof {
                lemma_first_after_push(before, p);
            }
            if let Some(q) = first_in_ball(&draws) {
                assert(draws_in_cube(draws@) && first_in_ball_from(draws@, 0) == Some(q));
                return q;
            }
            tries = tries + 1;
        }
        let origin = Vec3::new(0, 0, 0);
        assert(origin.x == 0 && origin.y == 0 && origin.z == 0);
        assert(origin.norm_sq() == 0) by (nonlinear_arith)
            requires
                origin.x == 0 && origin.y == 0 && origin.z == 0,
        ;
        origin
    }

    /// A unit vector of uniformly drawn direction: a nonzero point of the
    /// unit ball, divided by its length.
    pub fn random_unit_vector(rng: &mut rand::rngs::StdRng) -> (r: Vec3)
        ensures
            r.unit_bounded(),
            ONE * ONE - 8 * ONE < r.norm_sq() <= ONE * ONE + 6 * ONE + 8,
            is_unit_sample(r),
            (exists|draws: Seq<Point3>, p: Point3|
                draws_in_cube(draws) && first_in_ball_from(draws, 0) == Some(p) && !p.is_zero() && r
                    == p.unit()) || r == (Vec3 { x: 32768, y: 0, z: 0 }).unit(),
    {
        let mut tries: u32 = 0;
        while tries < MAX_DRAWS
            invariant
                tries <= MAX_DRAWS,
            decreases MAX_DRAWS - tries,
        {
            let p = Vec3::random_in_unit_sphere(rng);
            if let Some(u) = unit_candidate(p) {
                return u;
            }
            tries = tries + 1;
        }
        let q = Vec3::new(ONE / 2, 0, 0);
        assert(q.x == 32768 && q.y == 0 && q.z == 0);
        assert(in_unit_ball(q));
        q.normalize()
    }

    /// A point drawn uniformly from the inside of the unit disk in the plane
    /// `z = 0`: the first draw of `[-1, 1)^2` that lies inside it.
    pub fn random_in_unit_disk(rng: &mut rand::rngs::StdRng) -> (r: Point3)
        ensures
            r.z == 0,
            in_unit_ball(r),
            r.unit_bounded(),
            (exists|draws: Seq<(i64, i64)>| draws_in_square(draws) && first_in_disk_from(draws, 0) == Some(r))
                || r == (Vec3 { x: 0, y: 0, z: 0 }),
    {
        let mut draws: Vec<(i64, i64)> = Vec::new();
        let mut tries: u32 = 0;
        while tries < MAX_DRAWS
            invariant
                tries <= MAX_DRAWS,
                draws_in_square(draws@),
                first_in_disk_from(draws@, 0) is None,
            decreases MAX_DRAWS - tries,
        {
            let x = random_range(rng, -ONE, ONE);
            let y = random_range(rng, -ONE, ONE);
            let ghost before = draws@;
            draws.push((x, y));
            proof {
                lemma_first_pair_after_push(before, (x, y));
            }
            if let Some(p) = first_in_disk(&draws) {
                assert(draws_in_square(draws@) && first_in_disk_from(draws@, 0) == Some(p));
                return p;
            }
            tries = tries + 1;
        }
        let origin = Vec3::new(0, 0, 0);
        assert(origin.x == 0 && origin.y == 0 && origin.z == 0);
        assert(origin.norm_sq() == 0) by (nonlinear_arith)
            requires
                origin.x == 0 && origin.y == 0 && origin.z == 0,
        ;
        origin
    }
}

/// With no draw inside so far, the first inside after one more draw is that
/// draw, if it is inside.
proof fn lemma_first_after_push(draws: Seq<Point3>, p: Point3)
    ensures
        first_in_ball_from(draws, 0) is None ==> first_in_ball_from(draws.push(p), 0)
            == ball_pick(p.x, p.y, p.z),
{
    lemma_first_push_from(draws, p, 0);
}

proof fn lemma_first_push_from(draws: Seq<Point3>, p: Point3, i: int)
    requires
        0 <= i <= draws.len(),
    ensures
        first_in_ball_from(draws, i) is None ==> first_in_ball_from(draws.push(p), i)
            == ball_pick(p.x, p.y, p.z),
    decreases draws.len() - i,
{
    reveal_with_fuel(first_in_ball_from, 2);
    if i < draws.len() {
        lemma_first_push_from(draws, p, i + 1);
        assert(draws.push(p)[i] == draws[i]);
    } else {
        assert(draws.push(p)[i] == p);
    }
}

proof fn lemma_first_pair_after_push(draws: Seq<(i64, i64)>, p: (i64, i64))
    ensures
        first_in_disk_from(draws, 0) is None ==> first_in_disk_from(draws.push(p), 0) == ball_pick(
            p.0,
            p.1,
            0,
        ),
{
    lemma_first_pair_push_from(draws, p, 0);
}

proof fn lemma_first_pair_push_from(draws: Seq<(i64, i64)>, p: (i64, i64), i: int)
    requires
        0 <= i <= draws.len(),
    ensures
        first_in_disk_from(draws, i) is None ==> first_in_disk_from(draws.push(p), i) == ball_pick(
            p.0,
            p.1,
            0,
        ),
    decreases draws.len() - i,
{
    reveal_with_fuel(first_in_disk_from, 2);
    if i < draws.len() {
        lemma_first_pair_push_from(draws, p, i + 1);
        assert(draws.push(p)[i] == draws[i]);
    } else {
        assert(draws.push(p)[i] == p);
    }
}

} // verus!
