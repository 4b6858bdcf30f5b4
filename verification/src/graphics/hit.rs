//! Where a ray meets a surface, and the scene of all surfaces.

use vstd::prelude::*;
use core::ops::Neg;
use crate::algebra::fixed::{fits, ONE};
use crate::algebra::vec3::{Point3, V3, Vec3};
use crate::graphics::material::Material;
use crate::graphics::ray::Ray;
use crate::graphics::sphere::{lemma_hit_narrowed, lemma_hit_touches, Sphere};

verus! {

/// The meeting of a ray and a surface.
#[derive(Clone, Copy, Debug)]
pub struct HitRecord {
    /// Where the ray meets the surface.
    pub point: Point3,
    /// The surface normal at that point, turned against the ray.
    pub normal: Vec3,
    /// The ray parameter of the point.
    pub t: i64,
    /// Whether the ray comes from outside the surface.
    pub front_face: bool,
    /// What the surface is made of.
    pub material: Material,
}

/// Negating one operand negates the inner product.
pub proof fn lemma_inner_negated(a: V3, b: V3)
    ensures
        a.negated().inner(b) == -a.inner(b),
        a.inner(b.negated()) == -a.inner(b),
{
    assert((-a.x) * b.x == -(a.x * b.x)) by (nonlinear_arith);
    assert((-a.y) * b.y == -(a.y * b.y)) by (nonlinear_arith);
    assert((-a.z) * b.z == -(a.z * b.z)) by (nonlinear_arith);
    assert(a.x * (-b.x) == -(a.x * b.x)) by (nonlinear_arith);
    assert(a.y * (-b.y) == -(a.y * b.y)) by (nonlinear_arith);
    assert(a.z * (-b.z) == -(a.z * b.z)) by (nonlinear_arith);
}

impl HitRecord {
    /// The normal is no longer than a unit vector in any component, and
    /// the material is one that its constructor accepts.
    pub open spec fn wf(self) -> bool {
        self.normal@.bounded(ONE as int) && self.material.wf()
    }

    /// Whether a ray of direction `direction` comes from outside a surface
    /// whose outward normal is `outward`.
    pub open spec fn faces(outward: V3, direction: V3) -> bool {
        outward.inner(direction) < 0
    }

    /// The outward normal, turned against a ray of direction `direction`.
    pub open spec fn oriented(outward: V3, direction: V3) -> V3 {
        if Self::faces(outward, direction) {
            outward
        } else {
            outward.negated()
        }
    }

    pub fn new(point: Point3, normal: Vec3, t: i64, front_face: bool, material: Material) -> (r:
        HitRecord)
        ensures
            r == (HitRecord { point, normal, t, front_face, material }),
    {
        HitRecord { point, normal, t, front_face, material }
    }

    /// The record with its normal turned against `ray`, given the outward
    /// normal of the surface.
    pub fn with_normal(hit_record: HitRecord, ray: Ray, outward_normal: Vec3) -> (r: HitRecord)
        ensures
            r.point == hit_record.point,
            r.t == hit_record.t,
            r.material == hit_record.material,
            r.front_face == Self::faces(outward_normal@, ray.direction@),
            r.normal@ == Self::oriented(outward_normal@, ray.direction@),
            r.normal@.inner(ray.direction@) <= 0,
            r.normal@.norm2() == outward_normal@.norm2(),
    {
        broadcast use Vec3::lemma_of_view;

        let front_face = outward_normal.inner(ray.direction()) < 0;
        proof {
            lemma_inner_negated(outward_normal@, ray.direction@);
            crate::algebra::vec3::lemma_negated_norm2(outward_normal@);
            use_type_invariant(&outward_normal);
        }
        HitRecord {
            point: hit_record.point,
            normal: if front_face {
                outward_normal
            } else {
                outward_normal.neg()
            },
            t: hit_record.t,
            front_face,
            material: hit_record.material,
        }
    }
}

/// What a ray can hit. Whatever answers, a sphere or a scene or a kind of
/// object yet to come, answers with a point strictly between the bounds
/// and with a unit normal turned against the ray.
pub trait Hittable {
    /// The object is one that its constructor accepts.
    spec fn sound(&self) -> bool;

    /// Where `ray` meets the object at a parameter strictly between
    /// `t_min` and `t_max`, if anywhere.
    spec fn meeting(&self, ray: Ray, t_min: int, t_max: int) -> Option<HitRecord>;

    /// Where `ray` meets the object at a parameter strictly between
    /// `t_min` and `t_max`, if anywhere.
    fn hit(&self, ray: Ray, t_min: i64, t_max: i64) -> (r: Option<HitRecord>)
        requires
            self.sound(),
        ensures
            r == self.meeting(ray, t_min as int, t_max as int),
            r is Some ==> r->Some_0.wf() && t_min < r->Some_0.t < t_max,
            r is Some ==> r->Some_0.normal@.inner(ray.direction@) <= 0,
            r is Some ==> r->Some_0.normal@.is_unit(),
    ;
}

impl Hittable for Sphere {
    open spec fn sound(&self) -> bool {
        self.wf()
    }

    open spec fn meeting(&self, ray: Ray, t_min: int, t_max: int) -> Option<HitRecord> {
        self.hit_spec(ray, t_min, t_max)
    }

    fn hit(&self, ray: Ray, t_min: i64, t_max: i64) -> (r: Option<HitRecord>) {
        Sphere::hit(self, ray, t_min, t_max)
    }
}

impl Hittable for HittableStore {
    open spec fn sound(&self) -> bool {
        self.wf()
    }

    open spec fn meeting(&self, ray: Ray, t_min: int, t_max: int) -> Option<HitRecord> {
        closest_hit(self.store@, ray, t_min, t_max)
    }

    fn hit(&self, ray: Ray, t_min: i64, t_max: i64) -> (r: Option<HitRecord>) {
        HittableStore::hit(self, ray, t_min, t_max)
    }
}

/// The upper bound of the search once `best` has been found.
pub open spec fn narrowed_bound(best: Option<HitRecord>, t_max: int) -> int {
    match best {
        Some(rec) => rec.t as int,
        None => t_max,
    }
}

/// The hit of `ray` nearest to its origin among `objects`, at a parameter
/// strictly between `t_min` and `t_max`. The objects are asked in order,
/// each only for a hit nearer than the nearest found before it, so that
/// of two hits at the same parameter the earlier object's stands.
pub open spec fn closest_hit(objects: Seq<Sphere>, ray: Ray, t_min: int, t_max: int) -> Option<
    HitRecord,
>
    decreases objects.len(),
{
    if objects.len() == 0 {
        None
    } else {
        let before = closest_hit(objects.drop_last(), ray, t_min, t_max);
        match objects.last().hit_spec(ray, t_min, narrowed_bound(before, t_max)) {
            Some(rec) => Some(rec),
            None => before,
        }
    }
}

/// The closest hit lies between the bounds of the search.
pub proof fn lemma_closest_hit_within(objects: Seq<Sphere>, ray: Ray, t_min: int, t_max: int)
    requires
        fits(t_min),
        fits(t_max),
    ensures
        closest_hit(objects, ray, t_min, t_max) is Some ==> t_min < closest_hit(
            objects,
            ray,
            t_min,
            t_max,
        )->Some_0.t < t_max,
    decreases objects.len(),
{
    if objects.len() > 0 {
        lemma_closest_hit_within(objects.drop_last(), ray, t_min, t_max);
        let before = closest_hit(objects.drop_last(), ray, t_min, t_max);
        let limit = narrowed_bound(before, t_max);
        lemma_hit_narrowed(objects.last(), ray, t_min, limit, t_max);
        let full = objects.last().hit_spec(ray, t_min, t_max);
        if full is Some {
            lemma_hit_between(objects.last(), ray, t_min, t_max);
        }
    }
}

/// What a sphere answers lies between the bounds it was asked for.
pub proof fn lemma_hit_between(sphere: Sphere, ray: Ray, t_min: int, t_max: int)
    requires
        fits(t_min),
        fits(t_max),
        sphere.hit_spec(ray, t_min, t_max) is Some,
    ensures
        t_min < sphere.hit_spec(ray, t_min, t_max)->Some_0.t < t_max,
{
}

/// The closest hit is what one of the objects answers when asked alone.
pub proof fn lemma_closest_hit_is_a_hit(objects: Seq<Sphere>, ray: Ray, t_min: int, t_max: int)
    requires
        fits(t_min),
        fits(t_max),
        closest_hit(objects, ray, t_min, t_max) is Some,
    ensures
        exists|i: int|
            0 <= i < objects.len() && #[trigger] objects[i].hit_spec(ray, t_min, t_max)
                == closest_hit(objects, ray, t_min, t_max),
    decreases objects.len(),
{
    let before = closest_hit(objects.drop_last(), ray, t_min, t_max);
    let limit = narrowed_bound(before, t_max);
    lemma_closest_hit_within(objects.drop_last(), ray, t_min, t_max);
    lemma_hit_narrowed(objects.last(), ray, t_min, limit, t_max);
    if objects.last().hit_spec(ray, t_min, limit) is Some {
        let i = objects.len() - 1;
        assert(objects[i].hit_spec(ray, t_min, t_max) == closest_hit(objects, ray, t_min, t_max));
    } else {
        lemma_closest_hit_is_a_hit(objects.drop_last(), ray, t_min, t_max);
        let i = choose|i: int|
            0 <= i < objects.drop_last().len() && #[trigger] objects.drop_last()[i].hit_spec(
                ray,
                t_min,
                t_max,
            ) == before;
        assert(objects[i] == objects.drop_last()[i]);
        assert(objects[i].hit_spec(ray, t_min, t_max) == closest_hit(objects, ray, t_min, t_max));
    }
}

/// Whatever object a ray hits, the closest hit exists and is no farther:
/// the nearer surface wins, in whatever order the objects were stored.
pub proof fn lemma_closest_hit_is_nearest(
    objects: Seq<Sphere>,
    ray: Ray,
    t_min: int,
    t_max: int,
    i: int,
)
    requires
        fits(t_min),
        fits(t_max),
        0 <= i < objects.len(),
        objects[i].hit_spec(ray, t_min, t_max) is Some,
    ensures
        closest_hit(objects, ray, t_min, t_max) is Some,
        closest_hit(objects, ray, t_min, t_max)->Some_0.t <= objects[i].hit_spec(
            ray,
            t_min,
            t_max,
        )->Some_0.t,
    decreases objects.len(),
{
    let before = closest_hit(objects.drop_last(), ray, t_min, t_max);
    let limit = narrowed_bound(before, t_max);
    lemma_closest_hit_within(objects.drop_last(), ray, t_min, t_max);
    lemma_hit_narrowed(objects.last(), ray, t_min, limit, t_max);
    if i < objects.len() - 1 {
        assert(objects[i] == objects.drop_last()[i]);
        lemma_closest_hit_is_nearest(objects.drop_last(), ray, t_min, t_max, i);
    } else {
        lemma_hit_between(objects.last(), ray, t_min, t_max);
    }
}

/// The order in which the objects are stored does not matter to how far
/// the closest hit lies: two scenes of the same objects, in whatever
/// order and however often each occurs, are hit at the same parameter or
/// not at all.
pub proof fn lemma_closest_hit_whatever_the_order(
    first: Seq<Sphere>,
    second: Seq<Sphere>,
    ray: Ray,
    t_min: int,
    t_max: int,
)
    requires
        fits(t_min),
        fits(t_max),
        forall|i: int| 0 <= i < first.len() ==> second.contains(#[trigger] first[i]),
        forall|j: int| 0 <= j < second.len() ==> first.contains(#[trigger] second[j]),
    ensures
        closest_hit(first, ray, t_min, t_max) is Some <==> closest_hit(
            second,
            ray,
            t_min,
            t_max,
        ) is Some,
        closest_hit(first, ray, t_min, t_max) is Some ==> closest_hit(
            first,
            ray,
            t_min,
            t_max,
        )->Some_0.t == closest_hit(second, ray, t_min, t_max)->Some_0.t,
{
    lemma_closest_hit_no_farther(first, second, ray, t_min, t_max);
    lemma_closest_hit_no_farther(second, first, ray, t_min, t_max);
}

/// Where every object of `first` occurs in `second`, the closest hit of
/// `second` exists if that of `first` does, and is no farther.
proof fn lemma_closest_hit_no_farther(
    first: Seq<Sphere>,
    second: Seq<Sphere>,
    ray: Ray,
    t_min: int,
    t_max: int,
)
    requires
        fits(t_min),
        fits(t_max),
        forall|i: int| 0 <= i < first.len() ==> second.contains(#[trigger] first[i]),
    ensures
        closest_hit(first, ray, t_min, t_max) is Some ==> closest_hit(
            second,
            ray,
            t_min,
            t_max,
        ) is Some && closest_hit(second, ray, t_min, t_max)->Some_0.t <= closest_hit(
            first,
            ray,
            t_min,
            t_max,
        )->Some_0.t,
{
    if closest_hit(first, ray, t_min, t_max) is Some {
        lemma_closest_hit_is_a_hit(first, ray, t_min, t_max);
        let i = choose|i: int|
            0 <= i < first.len() && #[trigger] first[i].hit_spec(ray, t_min, t_max) == closest_hit(
                first,
                ray,
                t_min,
                t_max,
            );
        assert(second.contains(first[i]));
        let j = choose|j: int| 0 <= j < second.len() && second[j] == first[i];
        lemma_closest_hit_is_nearest(second, ray, t_min, t_max, j);
    }
}

/// A scene: the spheres a ray may hit, in the order they were stored.
pub struct HittableStore {
    pub store: Vec<Sphere>,
}

impl HittableStore {
    /// Every sphere of the scene is well formed.
    pub open spec fn wf(self) -> bool {
        forall|i: int| 0 <= i < self.store@.len() ==> (#[trigger] self.store@[i]).wf()
    }

    pub fn new() -> (r: HittableStore)
        ensures
            r.store@.len() == 0,
            r.wf(),
    {
        HittableStore { store: Vec::new() }
    }

    /// Adds a sphere behind those already stored.
    pub fn store(&mut self, hittable: Sphere)
        requires
            old(self).wf(),
            hittable.wf(),
        ensures
            final(self).store@ == old(self).store@.push(hittable),
            final(self).wf(),
    {
        self.store.push(hittable);
    }

    pub fn clear(&mut self)
        ensures
            final(self).store@.len() == 0,
            final(self).wf(),
    {
        self.store.clear();
    }

    pub fn len(&self) -> (r: usize)
        ensures
            r == self.store@.len(),
    {
        self.store.len()
    }

    /// The hit of `ray` nearest to its origin, at a parameter strictly
    /// between `t_min` and `t_max`.
    pub fn hit(&self, ray: Ray, t_min: i64, t_max: i64) -> (r: Option<HitRecord>)
        requires
            self.wf(),
        ensures
            r == closest_hit(self.store@, ray, t_min as int, t_max as int),
            r is Some ==> r->Some_0.wf() && t_min < r->Some_0.t < t_max,
            r is Some ==> r->Some_0.normal@.inner(ray.direction@) <= 0,
            r is Some ==> r->Some_0.normal@.is_unit(),
            r is Some ==> exists|i: int|
                0 <= i < self.store@.len() && (#[trigger] self.store@[i]).hit_spec(
                    ray,
                    t_min as int,
                    t_max as int,
                ) == r && self.store@[i].touches(r->Some_0.point@),
            forall|i: int|
                0 <= i < self.store@.len() && (#[trigger] self.store@[i]).hit_spec(
                    ray,
                    t_min as int,
                    t_max as int,
                ) is Some ==> r is Some && r->Some_0.t <= self.store@[i].hit_spec(
                    ray,
                    t_min as int,
                    t_max as int,
                )->Some_0.t,
    {
        let mut best: Option<HitRecord> = None;
        let mut closest_so_far: i64 = t_max;
        let n: usize = self.store.len();
        let mut k: usize = 0;
        while k < n
            invariant
                self.wf(),
                n == self.store@.len(),
                k <= n,
                best == closest_hit(self.store@.take(k as int), ray, t_min as int, t_max as int),
                closest_so_far == narrowed_bound(best, t_max as int),
                closest_so_far <= t_max,
                best is Some ==> best->Some_0.wf() && t_min < best->Some_0.t < t_max,
                best is Some ==> best->Some_0.normal@.inner(ray.direction@) <= 0,
                best is Some ==> best->Some_0.normal@.is_unit(),
            decreases n - k,
        {
            proof {
                assert(self.store@.take(k + 1).drop_last() =~= self.store@.take(k as int));
                assert(self.store@.take(k + 1).last() == self.store@[k as int]);
            }
            match self.store[k].hit(ray, t_min, closest_so_far) {
                Some(new_hit_record) => {
                    closest_so_far = new_hit_record.t;
                    best = Some(new_hit_record);
                },
                None => {},
            }
            k = k + 1;
        }
        proof {
            assert(self.store@.take(n as int) =~= self.store@);
            if best is Some {
                lemma_closest_hit_is_a_hit(self.store@, ray, t_min as int, t_max as int);
                let i = choose|i: int|
                    0 <= i < self.store@.len() && (#[trigger] self.store@[i]).hit_spec(
                        ray,
                        t_min as int,
                        t_max as int,
                    ) == best;
                lemma_hit_touches(self.store@[i], ray, t_min as int, t_max as int);
            }
            assert forall|i: int|
                0 <= i < self.store@.len() && (#[trigger] self.store@[i]).hit_spec(
                    ray,
                    t_min as int,
                    t_max as int,
                ) is Some implies best is Some && best->Some_0.t <= self.store@[i].hit_spec(
                ray,
                t_min as int,
                t_max as int,
            )->Some_0.t by {
                lemma_closest_hit_is_nearest(self.store@, ray, t_min as int, t_max as int, i);
            }
        }
        best
    }
}

} // verus!
