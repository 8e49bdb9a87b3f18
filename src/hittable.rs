//! Hit records, and the closest hit over a list of spheres.
use vstd::prelude::*;

use crate::fixed::{LIMIT, ONE};
use crate::material::{material_valid, Material};
use crate::ray::{traceable, Ray, WORLD};
use crate::sphere::{
    hit_point, lemma_hit_bound, lemma_root_point_near, outward_normal, sphere_hit, sphere_valid,
    Sphere,
};
use crate::vec3::{
    dot_exact, dot_raw, is_zero, lemma_unit_within, neg_of, sub_of, within, Point3, Vec3,
};

verus! {

/// What a successful intersection query reports.
#[derive(Clone, Copy, Debug, PartialEq, Eq, Structural)]
pub struct HitRecord {
    pub p: Point3,
    pub normal: Vec3,
    pub t: i64,
    pub front_face: bool,
    pub material: Material,
}

/// The normal stored for a hit: `outward` if the ray meets the surface from
/// outside, its opposite otherwise.
pub open spec fn facing_normal(direction: Vec3, outward: Vec3) -> Vec3 {
    if dot_exact(direction, outward) < 0 {
        outward
    } else {
        neg_of(outward)
    }
}

/// The stored normal never points along the ray.
pub proof fn lemma_facing_normal(direction: Vec3, outward: Vec3)
    requires
        within(outward, LIMIT as int),
    ensures
        dot_exact(direction, facing_normal(direction, outward)) <= 0,
{
    let d = direction;
    let n = outward;
    if dot_exact(d, n) >= 0 {
        assert(d.x * -n.x + d.y * -n.y + d.z * -n.z == -(d.x * n.x + d.y * n.y + d.z * n.z))
            by (nonlinear_arith);
    }
}

impl HitRecord {
    pub fn new_empty() -> (r: HitRecord)
        ensures
            r == (HitRecord {
                p: Vec3 { x: 0, y: 0, z: 0 },
                normal: Vec3 { x: 0, y: 0, z: 0 },
                t: 0,
                front_face: false,
                material: Material::Void,
            }),
    {
        HitRecord {
            p: Vec3::new(0, 0, 0),
            normal: Vec3::new(0, 0, 0),
            t: 0,
            front_face: false,
            material: Material::Void,
        }
    }

    /// Orients the stored normal against the incoming ray, and records
    /// whether the ray meets the front face.
    pub fn set_face_normal(&mut self, r: &Ray, outward_normal: Vec3)
        requires
            within(r.direction, LIMIT as int),
            within(outward_normal, LIMIT as int),
        ensures
            final(self).front_face == (dot_exact(r.direction, outward_normal) < 0),
            final(self).normal == facing_normal(r.direction, outward_normal),
            dot_exact(r.direction, final(self).normal) <= 0,
            final(self).p == old(self).p,
            final(self).t == old(self).t,
            final(self).material == old(self).material,
    {
        self.front_face = dot_raw(&r.direction, &outward_normal) < 0;
        self.normal = if self.front_face {
            outward_normal
        } else {
            outward_normal.neg()
        };
        proof {
            let d = r.direction;
            let n = outward_normal;
            assert(dot_exact(d, self.normal) == -dot_exact(d, n) || self.front_face)
                by (nonlinear_arith)
                requires
                    self.front_face || (self.normal.x == -n.x && self.normal.y == -n.y
                        && self.normal.z == -n.z),
            ;
        }
    }
}

/// What scattering needs of a hit: a point inside the world's range, a
/// normal of length at most one, and a valid material.
pub open spec fn record_valid(h: HitRecord) -> bool {
    within(h.p, WORLD as int) && within(h.normal, ONE as int) && material_valid(h.material)
}

/// Every sphere of the scene is valid.
pub open spec fn scene_valid(s: Seq<Sphere>) -> bool {
    forall|i: int| 0 <= i < s.len() ==> sphere_valid(#[trigger] s[i])
}

/// Whether every sphere of `world` is valid.
pub fn scene_is_valid(world: &[Sphere]) -> (r: bool)
    ensures
        r == scene_valid(world@),
{
    let mut i: usize = 0;
    while i < world.len()
        invariant
            i <= world.len(),
            forall|k: int| 0 <= k < i ==> sphere_valid(#[trigger] world@[k]),
        decreases world.len() - i,
    {
        if !world[i].is_valid() {
            return false;
        }
        i += 1;
    }
    true
}

/// The closest hit over the spheres of `s`, scanned in order, each asked
/// for a hit no farther than the closest one found before it.
pub open spec fn world_hit(s: Seq<Sphere>, r: Ray, t_min: int, t_max: int) -> Option<HitRecord>
    decreases s.len(),
{
    if s.len() == 0 {
        None
    } else {
        let prev = world_hit(s.drop_last(), r, t_min, t_max);
        let bound = match prev {
            Some(h) => h.t as int,
            None => t_max,
        };
        match sphere_hit(s.last(), r, t_min, bound) {
            Some(h) => Some(h),
            None => prev,
        }
    }
}

/// A hit reported by the scene lies in the range asked for.
pub proof fn lemma_world_hit_range(s: Seq<Sphere>, r: Ray, t_min: int, t_max: int)
    requires
        traceable(r),
        i64::MIN <= t_min,
        t_max <= i64::MAX,
    ensures
        world_hit(s, r, t_min, t_max) matches Some(h) ==> t_min < h.t <= t_max,
    decreases s.len(),
{
    if s.len() > 0 {
        lemma_world_hit_range(s.drop_last(), r, t_min, t_max);
        let prev = world_hit(s.drop_last(), r, t_min, t_max);
        let bound = match prev {
            Some(h) => h.t as int,
            None => t_max,
        };
        lemma_hit_bound(s.last(), r, t_min, bound, bound);
    }
}

/// The scene reports the closest hit: when any of its spheres is hit within
/// `(t_min, t_max]`, the scene reports a hit, and its parameter is at most
/// that sphere's.
pub proof fn lemma_closest_hit(s: Seq<Sphere>, r: Ray, t_min: int, t_max: int, k: int)
    requires
        traceable(r),
        i64::MIN <= t_min,
        t_max <= i64::MAX,
        0 <= k < s.len(),
        sphere_hit(s[k], r, t_min, t_max) is Some,
    ensures
        world_hit(s, r, t_min, t_max) is Some,
        world_hit(s, r, t_min, t_max)->Some_0.t <= sphere_hit(s[k], r, t_min, t_max)->Some_0.t,
    decreases s.len(),
{
    let prev = world_hit(s.drop_last(), r, t_min, t_max);
    lemma_world_hit_range(s.drop_last(), r, t_min, t_max);
    let bound = match prev {
        Some(h) => h.t as int,
        None => t_max,
    };
    lemma_hit_bound(s.last(), r, t_min, bound, t_max);
    lemma_hit_bound(s.last(), r, t_min, bound, bound);
    if k < s.len() - 1 {
        assert(s.drop_last()[k] == s[k]);
        lemma_closest_hit(s.drop_last(), r, t_min, t_max, k);
    }
}

/// Every hit the scene reports is a hit of one of its spheres over the whole
/// range `(t_min, t_max]`.
pub proof fn lemma_world_hit_is_sphere_hit(s: Seq<Sphere>, r: Ray, t_min: int, t_max: int)
    requires
        traceable(r),
        i64::MIN <= t_min,
        t_max <= i64::MAX,
        world_hit(s, r, t_min, t_max) is Some,
    ensures
        exists|k: int|
            0 <= k < s.len() && sphere_hit(s[k], r, t_min, t_max) == world_hit(
                s,
                r,
                t_min,
                t_max,
            ),
    decreases s.len(),
{
    let prev = world_hit(s.drop_last(), r, t_min, t_max);
    lemma_world_hit_range(s.drop_last(), r, t_min, t_max);
    let bound = match prev {
        Some(h) => h.t as int,
        None => t_max,
    };
    lemma_hit_bound(s.last(), r, t_min, bound, t_max);
    if sphere_hit(s.last(), r, t_min, bound) is Some {
        assert(sphere_hit(s[s.len() - 1], r, t_min, t_max) == world_hit(s, r, t_min, t_max));
    } else {
        lemma_world_hit_is_sphere_hit(s.drop_last(), r, t_min, t_max);
        let k = choose|k: int|
            0 <= k < s.drop_last().len() && sphere_hit(s.drop_last()[k], r, t_min, t_max)
                == prev;
        assert(s.drop_last()[k] == s[k]);
    }
}

proof fn lemma_sphere_hit_faces_ray(s: Sphere, r: Ray, t_min: int, t_max: int)
    requires
        sphere_valid(s),
        traceable(r),
        i64::MIN <= t_min,
        t_max <= i64::MAX,
    ensures
        sphere_hit(s, r, t_min, t_max) matches Some(h) ==> dot_exact(r.direction, h.normal) <= 0,
{
    lemma_hit_bound(s, r, t_min, t_max, t_max);
    if let Some(h) = sphere_hit(s, r, t_min, t_max) {
        let t = h.t as int;
        let p = hit_point(r, t);
        lemma_root_point_near(s, r, t);
        let v = sub_of(p, s.center);
        if p != s.center {
            assert(!is_zero(v));
            lemma_unit_within(v);
        } else {
            lemma_unit_within(r.direction);
        }
        lemma_facing_normal(r.direction, outward_normal(s, r, p));
    }
}

/// Every hit that a sphere or the scene reports has its normal against the
/// ray: `dot(direction, normal) <= 0`.
pub proof fn lemma_hits_face_the_ray(s: Seq<Sphere>, r: Ray, t_min: int, t_max: int, k: int)
    requires
        scene_valid(s),
        traceable(r),
        i64::MIN <= t_min,
        t_max <= i64::MAX,
        0 <= k < s.len(),
    ensures
        sphere_hit(s[k], r, t_min, t_max) matches Some(h) ==> dot_exact(r.direction, h.normal) <= 0,
        world_hit(s, r, t_min, t_max) matches Some(h) ==> dot_exact(r.direction, h.normal) <= 0,
{
    if let Some(h) = sphere_hit(s[k], r, t_min, t_max) {
        lemma_sphere_hit_faces_ray(s[k], r, t_min, t_max);
    }
    if world_hit(s, r, t_min, t_max) is Some {
        lemma_world_hit_is_sphere_hit(s, r, t_min, t_max);
        let j = choose|j: int|
            0 <= j < s.len() && sphere_hit(s[j], r, t_min, t_max) == world_hit(s, r, t_min, t_max);
        let h = world_hit(s, r, t_min, t_max)->Some_0;
        lemma_sphere_hit_faces_ray(s[j], r, t_min, t_max);
    }
}

/// The closest hit of `r` over the spheres of `world` within `(t_min, t_max]`.
pub fn hit_world(world: &[Sphere], r: &Ray, t_min: i64, t_max: i64) -> (res: Option<HitRecord>)
    requires
        scene_valid(world@),
        traceable(*r),
    ensures
        res == world_hit(world@, *r, t_min as int, t_max as int),
        res matches Some(h) ==> t_min < h.t <= t_max && dot_exact(r.direction, h.normal) <= 0
            && record_valid(h),
{
    let mut closest = t_max;
    let mut hit_record: Option<HitRecord> = None;
    let mut i: usize = 0;
    while i < world.len()
        invariant
            0 <= i <= world.len(),
            scene_valid(world@),
            traceable(*r),
            hit_record == world_hit(world@.subrange(0, i as int), *r, t_min as int, t_max as int),
            closest == (match hit_record {
                Some(h) => h.t,
                None => t_max,
            }),
            hit_record matches Some(h) ==> t_min < h.t <= t_max && dot_exact(r.direction, h.normal)
                <= 0 && record_valid(h),
        decreases world.len() - i,
    {
        proof {
            assert(world@.subrange(0, i + 1).drop_last() =~= world@.subrange(0, i as int));
            assert(world@.subrange(0, i + 1).last() == world@[i as int]);
        }
        if let Some(hit) = world[i].hit(r, t_min, closest) {
            closest = hit.t;
            hit_record = Some(hit);
        }
        i += 1;
    }
    proof {
        assert(world@.subrange(0, world.len() as int) =~= world@);
    }
    hit_record
}

/// An ordered collection of spheres.
pub struct HittableList {
    pub objects: Vec<Sphere>,
}

impl HittableList {
    pub fn new() -> (r: HittableList)
        ensures
            r.objects@ == Seq::<Sphere>::empty(),
    {
        HittableList { objects: Vec::new() }
    }

    pub fn clear(&mut self)
        ensures
            final(self).objects@ == Seq::<Sphere>::empty(),
    {
        self.objects = Vec::new();
    }

    pub fn add(&mut self, object: Sphere)
        ensures
            final(self).objects@ == old(self).objects@.push(object),
    {
        self.objects.push(object);
    }

    /// The closest hit of `r` over the list within `(t_min, t_max]`.
    pub fn hit(&self, r: &Ray, t_min: i64, t_max: i64) -> (res: Option<HitRecord>)
        requires
            scene_valid(self.objects@),
            traceable(*r),
        ensures
            res == world_hit(self.objects@, *r, t_min as int, t_max as int),
            res matches Some(h) ==> t_min < h.t <= t_max && dot_exact(r.direction, h.normal) <= 0
                && record_valid(h),
    {
        hit_world(self.objects.as_slice(), r, t_min, t_max)
    }
}

} // verus!
