//! Rays: an origin and a direction, with the position `origin + t * direction`.
use vstd::prelude::*;

use crate::fixed::{fixed_mul, fmul, LIMIT};
use crate::vec3::{is_zero, within, Point3, Vec3};

verus! {

/// The largest magnitude of a coordinate of a traced ray's origin or direction
/// (one thousand units).
pub const WORLD: i64 = 1_000_000_000;

#[derive(Clone, Copy, Debug, PartialEq, Eq, Structural)]
pub struct Ray {
    pub origin: Point3,
    pub direction: Vec3,
}

/// A ray that can be traced: origin and direction inside the world's range,
/// and a direction that is not zero.
pub open spec fn traceable(r: Ray) -> bool {
    within(r.origin, WORLD as int) && within(r.direction, WORLD as int) && !is_zero(r.direction)
}

/// The position at parameter `t`, each product rounded down.
pub open spec fn at_of(r: Ray, t: int) -> (int, int, int) {
    (
        r.origin.x + fmul(r.direction.x as int, t),
        r.origin.y + fmul(r.direction.y as int, t),
        r.origin.z + fmul(r.direction.z as int, t),
    )
}

impl Ray {
    pub fn new(origin: Point3, direction: Vec3) -> (r: Ray)
        ensures
            r == (Ray { origin, direction }),
    {
        Ray { origin, direction }
    }

    /// The point `origin + t * direction`.
    pub fn at(&self, t: i64) -> (r: Point3)
        requires
            within(self.direction, LIMIT as int),
            -LIMIT <= t <= LIMIT,
            i64::MIN < at_of(*self, t as int).0 <= i64::MAX,
            i64::MIN < at_of(*self, t as int).1 <= i64::MAX,
            i64::MIN < at_of(*self, t as int).2 <= i64::MAX,
        ensures
            r.x == at_of(*self, t as int).0,
            r.y == at_of(*self, t as int).1,
            r.z == at_of(*self, t as int).2,
    {
        Vec3 {
            x: self.origin.x + fixed_mul(self.direction.x, t),
            y: self.origin.y + fixed_mul(self.direction.y, t),
            z: self.origin.z + fixed_mul(self.direction.z, t),
        }
    }
}

} // verus!
