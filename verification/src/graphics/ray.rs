//! Rays.

use vstd::prelude::*;
use crate::algebra::fixed::{lemma_product_bound, LIMIT};
use crate::algebra::vec3::{Point3, V3, Vec3};

verus! {

/// A half-line: the points `origin + t * direction`. The direction need
/// not have unit length and may be zero.
#[derive(Clone, Copy, Debug)]
pub struct Ray {
    pub origin: Point3,
    pub direction: Vec3,
}

impl Ray {
    /// The point at parameter `t`.
    pub open spec fn point_at(self, t: int) -> V3 {
        self.origin@.plus(self.direction@.scaled(t))
    }

    pub fn new(origin: Point3, direction: Vec3) -> (r: Ray)
        ensures
            r.origin == origin,
            r.direction == direction,
    {
        Ray { origin, direction }
    }

    /// The ray from the origin without direction.
    pub fn new_zeroes() -> (r: Ray)
        ensures
            r.origin@.is_zero(),
            r.direction@.is_zero(),
    {
        Ray { origin: Vec3::zero(), direction: Vec3::zero() }
    }

    pub fn direction(&self) -> (r: Vec3)
        ensures
            r == self.direction,
    {
        self.direction
    }

    pub fn origin(&self) -> (r: Point3)
        ensures
            r == self.origin,
    {
        self.origin
    }

    /// The point at parameter `t`, which must lie within the limit.
    pub fn at(&self, t: i64) -> (r: Point3)
        requires
            self.point_at(t as int).bounded(LIMIT as int),
        ensures
            r@ == self.point_at(t as int),
    {
        match self.try_at(t) {
            Some(p) => p,
            None => self.origin,
        }
    }

    /// The point at parameter `t`, unless it lies beyond the limit.
    pub fn try_at(&self, t: i64) -> (r: Option<Point3>)
        ensures
            r.is_some() <==> self.point_at(t as int).bounded(LIMIT as int),
            r.is_some() ==> r.unwrap()@ == self.point_at(t as int),
    {
        let k: i128 = t as i128;
        let dx: i128 = self.direction.x() as i128;
        let dy: i128 = self.direction.y() as i128;
        let dz: i128 = self.direction.z() as i128;
        proof {
            lemma_product_bound(dx as int, k as int, LIMIT as int, 0x8000_0000_0000_0000);
            lemma_product_bound(dy as int, k as int, LIMIT as int, 0x8000_0000_0000_0000);
            lemma_product_bound(dz as int, k as int, LIMIT as int, 0x8000_0000_0000_0000);
        }
        let px: i128 = (self.origin.x() as i128) + (dx * k) / 65536;
        let py: i128 = (self.origin.y() as i128) + (dy * k) / 65536;
        let pz: i128 = (self.origin.z() as i128) + (dz * k) / 65536;
        Vec3::narrowed(px, py, pz)
    }
}

} // verus!
