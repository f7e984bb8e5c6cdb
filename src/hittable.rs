//! The intersection protocol, and an ordered list of spheres that reports the
//! nearest hit.
use crate::fixed::WORLD_MAX;
use crate::material::MaterialKind;
use crate::sphere::{lemma_hit_window, Sphere};
use crate::ray::Ray;
use crate::vec3::{dot_exact, Point3, Vec3};
use vstd::prelude::*;

verus! {

/// Where a ray meets a surface.
#[derive(Clone, Copy, Debug)]
pub struct HitRecord {
    pub p: Point3,
    pub normal: Vec3,
    pub mat: MaterialKind,
    pub t: i64,
    pub front_face: bool,
}

/// The normal faces the ray: the front face is hit when the ray runs against
/// the outward normal, and the normal is then that outward normal; on the back
/// face it is the reverse of it.
pub open spec fn faces(front_face: bool, normal: Vec3, dir: Vec3, outward: Vec3) -> bool {
    &&& front_face == (dot_exact(dir, outward) < 0)
    &&& normal == (if front_face { outward } else { outward.negated() })
}

/// On every hit the normal runs against the ray on the front face, and not
/// along it on the back face: the dot product of the ray direction and the
/// recorded normal is negative when `front_face` holds, and never positive
/// otherwise.
pub proof fn lemma_normal_against_ray(front_face: bool, normal: Vec3, dir: Vec3, outward: Vec3)
    requires
        outward.unit_bounded(),
        faces(front_face, normal, dir, outward),
    ensures
        front_face ==> dot_exact(dir, normal) < 0,
        !front_face ==> dot_exact(dir, normal) <= 0,
        !front_face ==> dot_exact(dir, outward) >= 0,
{
    if !front_face {
        assert(dot_exact(dir, outward.negated()) == -dot_exact(dir, outward)) by (nonlinear_arith)
            requires
                outward.negated().x == -outward.x,
                outward.negated().y == -outward.y,
                outward.negated().z == -outward.z,
        ;
    }
}

/// The intersection protocol: the hit, if any, of a ray within the parameter
/// window `[t_min, t_max]`.
pub trait Hittable {
    spec fn wf(&self) -> bool;

    spec fn hit_spec(&self, r: Ray, t_min: int, t_max: int) -> Option<HitRecord>;

    fn hit(&self, r: &Ray, t_min: i64, t_max: i64) -> (res: Option<HitRecord>)
        requires
            self.wf(),
            r.wf(),
        ensures
            res == self.hit_spec(*r, t_min as int, t_max as int),
            res is Some ==> t_min <= res.unwrap().t <= t_max && res.unwrap().wf(),
            res is Some ==> exists|outward: Vec3|
                outward.unit_bounded() && faces(res.unwrap().front_face, res.unwrap().normal, r.dir, outward),
    ;
}

impl HitRecord {
    pub open spec fn wf(self) -> bool {
        self.p.within(WORLD_MAX as int) && self.normal.unit_bounded() && !self.normal.is_zero()
            && self.mat.valid()
    }

    /// Orients `outward_normal` against the ray and records which face was hit.
    pub fn set_face_normal(&mut self, r: &Ray, outward_normal: &Vec3)
        requires
            r.wf(),
            outward_normal.unit_bounded(),
        ensures
            faces(final(self).front_face, final(self).normal, r.dir, *outward_normal),
            final(self).p == old(self).p,
            final(self).t == old(self).t,
            final(self).mat == old(self).mat,
    {
        let d = r.direction().dot(outward_normal);
        proof {
            crate::vec3::lemma_dot_sign(r.dir, *outward_normal);
        }
        self.front_face = d < 0;
        self.normal = if self.front_face {
            *outward_normal
        } else {
            outward_normal.neg()
        };
    }
}

/// The scene: an ordered collection of spheres.
pub struct HittableList {
    pub objects: Vec<Sphere>,
}

impl HittableList {
    pub open spec fn valid(self) -> bool {
        forall|i: int| 0 <= i < self.objects@.len() ==> (#[trigger] self.objects@[i]).valid()
    }

    /// Some sphere of the list is hit within the window.
    pub open spec fn any_hit(self, r: Ray, t_min: int, t_max: int) -> bool {
        exists|i: int| 0 <= i < self.objects@.len() && (#[trigger] self.objects@[i]).hit_spec(r, t_min, t_max) is Some
    }

    /// `rec` is the hit of sphere `k` within the window, and every sphere
    /// after `k` among the first `n` is hit farther away, if at all.
    pub open spec fn last_of_nearest(self, r: Ray, t_min: int, t_max: int, rec: HitRecord, k: int, n: int) -> bool {
        &&& 0 <= k < n
        &&& self.objects@[k].hit_spec(r, t_min, t_max) == Some(rec)
        &&& forall|i: int| k < i < n && (#[trigger] self.objects@[i]).hit_spec(r, t_min, t_max) is Some
            ==> rec.t < self.objects@[i].hit_spec(r, t_min, t_max).unwrap().t
    }

    /// `rec` is the nearest of the hits within the window; of equally near
    /// hits, the one of the last sphere.
    pub open spec fn is_nearest(self, r: Ray, t_min: int, t_max: int, rec: HitRecord) -> bool {
        &&& exists|k: int| #[trigger] self.last_of_nearest(r, t_min, t_max, rec, k, self.objects@.len() as int)
        &&& forall|i: int| 0 <= i < self.objects@.len() && (#[trigger] self.objects@[i]).hit_spec(r, t_min, t_max) is Some
            ==> rec.t <= self.objects@[i].hit_spec(r, t_min, t_max).unwrap().t
    }

    pub fn new() -> (r: HittableList)
        ensures
            r.objects@ == Seq::<Sphere>::empty(),
    {
        HittableList { objects: Vec::new() }
    }

    pub fn add(&mut self, object: Sphere)
        ensures
            final(self).objects@ == old(self).objects@.push(object),
    {
        self.objects.push(object);
    }

    /// The nearest hit among all spheres within `[t_min, t_max]`: each hit
    /// found narrows the window for the spheres after it.
    pub fn hit(&self, r: &Ray, t_min: i64, t_max: i64) -> (res: Option<HitRecord>)
        requires
            self.valid(),
            r.wf(),
        ensures
            res is None <==> !self.any_hit(*r, t_min as int, t_max as int),
            res is Some ==> self.is_nearest(*r, t_min as int, t_max as int, res.unwrap()),
            res is Some ==> t_min <= res.unwrap().t <= t_max && res.unwrap().wf(),
            res is Some ==> exists|outward: Vec3|
                outward.unit_bounded() && faces(res.unwrap().front_face, res.unwrap().normal, r.dir, outward),
    {
        let mut record: Option<HitRecord> = None;
        let mut closest_so_far: i64 = t_max;
        let n = self.objects.len();
        let mut i: usize = 0;
        while i < n
            invariant
                n == self.objects@.len(),
                i <= n,
                self.valid(),
                r.wf(),
                closest_so_far <= t_max,
                record is None ==> closest_so_far == t_max,
                record is None ==> forall|j: int| 0 <= j < i ==> (#[trigger] self.objects@[j]).hit_spec(*r, t_min as int, t_max as int) is None,
                record is Some ==> closest_so_far == record.unwrap().t,
                record is Some ==> t_min <= record.unwrap().t && record.unwrap().wf(),
                record is Some ==> exists|outward: Vec3|
                    outward.unit_bounded() && faces(record.unwrap().front_face, record.unwrap().normal, r.dir, outward),
                record is Some ==> exists|k: int| #[trigger] self.last_of_nearest(*r, t_min as int, t_max as int, record.unwrap(), k, i as int),
                record is Some ==> forall|j: int| 0 <= j < i && (#[trigger] self.objects@[j]).hit_spec(*r, t_min as int, t_max as int) is Some
                    ==> record.unwrap().t <= self.objects@[j].hit_spec(*r, t_min as int, t_max as int).unwrap().t,
            decreases n - i,
        {
            let object = &self.objects[i];
            proof {
                lemma_hit_window(*object, *r, t_min as int, t_max as int, closest_so_far as int);
            }
            let ghost old_record = record;
            if let Some(temp_rec) = object.hit(r, t_min, closest_so_far) {
                closest_so_far = temp_rec.t;
                record = Some(temp_rec);
                assert(self.last_of_nearest(*r, t_min as int, t_max as int, temp_rec, i as int, i + 1));
            } else {
                proof {
                    if old_record is Some {
                        let k = choose|k: int|
                            #[trigger] self.last_of_nearest(*r, t_min as int, t_max as int, old_record.unwrap(), k, i as int);
                        assert(self.last_of_nearest(*r, t_min as int, t_max as int, old_record.unwrap(), k, i + 1));
                    }
                }
            }
            i = i + 1;
        }
        record
    }
}

} // verus!
