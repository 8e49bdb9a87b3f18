//! The pinhole camera: maps image-plane coordinates to rays.
use vstd::prelude::*;

use crate::fixed::{fixed_mul, fmul, lemma_div_one_within, lemma_mul_within, ONE};
use crate::ray::{traceable, Ray};
use crate::vec3::{Point3, Vec3};

verus! {

/// The largest viewport width, viewport height or focal length (100 units).
pub const MAX_VIEW: i64 = 100_000_000;

pub struct Camera {
    pub origin: Point3,
    pub lower_left_corner: Point3,
    pub horizontal: Vec3,
    pub vertical: Vec3,
}

/// The camera of `Camera::new(aspect_ratio, viewport_height, focal_length)`:
/// at the origin, looking down `-z`, with a viewport `aspect_ratio *
/// viewport_height` wide and `viewport_height` high at distance `focal_length`.
pub open spec fn camera_of(aspect_ratio: int, viewport_height: int, focal_length: int) -> Camera {
    let w = fmul(aspect_ratio, viewport_height);
    Camera {
        origin: Vec3 { x: 0, y: 0, z: 0 },
        lower_left_corner: Vec3 {
            x: (-(w / 2)) as i64,
            y: (-(viewport_height / 2)) as i64,
            z: -focal_length as i64,
        },
        horizontal: Vec3 { x: w as i64, y: 0, z: 0 },
        vertical: Vec3 { x: 0, y: viewport_height as i64, z: 0 },
    }
}

/// A camera built from a viewport and focal length that are positive and at
/// most `MAX_VIEW`.
pub open spec fn camera_valid(c: Camera) -> bool {
    exists|a: int, h: int, f: int|
        0 < fmul(a, h) <= MAX_VIEW && 0 < h <= MAX_VIEW && 0 < f <= MAX_VIEW && c == camera_of(
            a,
            h,
            f,
        )
}

/// The ray from `origin` toward `lower_left_corner + u horizontal + v vertical`.
pub open spec fn ray_through(c: Camera, u: int, v: int) -> Ray {
    Ray {
        origin: c.origin,
        direction: Vec3 {
            x: (c.lower_left_corner.x + fmul(c.horizontal.x as int, u) + fmul(
                c.vertical.x as int,
                v,
            ) - c.origin.x) as i64,
            y: (c.lower_left_corner.y + fmul(c.horizontal.y as int, u) + fmul(
                c.vertical.y as int,
                v,
            ) - c.origin.y) as i64,
            z: (c.lower_left_corner.z + fmul(c.horizontal.z as int, u) + fmul(
                c.vertical.z as int,
                v,
            ) - c.origin.z) as i64,
        },
    }
}

/// The parameters give a valid camera: a viewport width `aspect_ratio *
/// viewport_height`, a viewport height and a focal length that are positive
/// and at most `MAX_VIEW`.
pub open spec fn camera_params(aspect_ratio: int, viewport_height: int, focal_length: int) -> bool {
    0 <= aspect_ratio <= MAX_VIEW && 0 < fmul(aspect_ratio, viewport_height) <= MAX_VIEW && 0
        < viewport_height <= MAX_VIEW && 0 < focal_length <= MAX_VIEW
}

/// Whether `Camera::new` on these parameters gives a camera that can render.
pub fn camera_params_valid(aspect_ratio: i64, viewport_height: i64, focal_length: i64) -> (r: bool)
    ensures
        r == camera_params(aspect_ratio as int, viewport_height as int, focal_length as int),
{
    if aspect_ratio < 0 || aspect_ratio > MAX_VIEW || viewport_height <= 0 || viewport_height
        > MAX_VIEW || focal_length <= 0 || focal_length > MAX_VIEW {
        return false;
    }
    proof {
        lemma_mul_within(aspect_ratio as int, viewport_height as int, 100_000_000, 100_000_000);
    }
    let w = fixed_mul(aspect_ratio, viewport_height);
    0 < w && w <= MAX_VIEW
}

impl Camera {
    pub fn new(aspect_ratio: i64, viewport_height: i64, focal_length: i64) -> (r: Camera)
        requires
            0 <= aspect_ratio <= MAX_VIEW,
            0 <= viewport_height <= MAX_VIEW,
            0 <= focal_length <= MAX_VIEW,
        ensures
            r == camera_of(aspect_ratio as int, viewport_height as int, focal_length as int),
            camera_params(aspect_ratio as int, viewport_height as int, focal_length as int)
                ==> camera_valid(r),
    {
        proof {
            lemma_mul_within(
                aspect_ratio as int,
                viewport_height as int,
                100_000_000,
                100_000_000,
            );
        }
        let viewport_width = fixed_mul(aspect_ratio, viewport_height);
        let origin = Vec3::new(0, 0, 0);
        let horizontal = Vec3::new(viewport_width, 0, 0);
        let vertical = Vec3::new(0, viewport_height, 0);
        let lower_left_corner = Vec3::new(
            -(viewport_width / 2),
            -(viewport_height / 2),
            -focal_length,
        );
        Camera { origin, lower_left_corner, horizontal, vertical }
    }

    /// The ray through the image-plane point `(u, v)`, `u` from left to right
    /// and `v` from bottom to top.
    pub fn get_ray(&self, u: i64, v: i64) -> (r: Ray)
        requires
            camera_valid(*self),
            -MAX_VIEW <= u <= MAX_VIEW,
            -MAX_VIEW <= v <= MAX_VIEW,
        ensures
            r == ray_through(*self, u as int, v as int),
            0 <= u <= 2 * ONE && 0 <= v <= 2 * ONE ==> traceable(r),
    {
        proof {
            lemma_mul_within(
                self.horizontal.x as int,
                u as int,
                100_000_000,
                100_000_000,
            );
            lemma_mul_within(
                self.vertical.y as int,
                v as int,
                100_000_000,
                100_000_000,
            );
            if 0 <= u <= 2 * ONE {
                lemma_mul_within(
                    self.horizontal.x as int,
                    u as int,
                    100_000_000,
                    2_000_000,
                );
                lemma_div_one_within(self.horizontal.x * u, 200_000_000);
            }
            if 0 <= v <= 2 * ONE {
                lemma_mul_within(
                    self.vertical.y as int,
                    v as int,
                    100_000_000,
                    2_000_000,
                );
                lemma_div_one_within(self.vertical.y * v, 200_000_000);
            }
        }
        let h = self.horizontal.scale(u);
        let w = self.vertical.scale(v);
        let direction = self.lower_left_corner.add(h).add(w).sub(self.origin);
        Ray::new(self.origin, direction)
    }
}

} // verus!
