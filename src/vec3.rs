//! Three-component fixed-point vectors: points, directions and colors.
use vstd::prelude::*;

use crate::fixed::{
    ONE_SQUARED, div_floor, fdiv, fixed_div, fixed_mul, fixed_sqrt, floor_sqrt, fmul, fsqrt,
    lemma_div_one_within, lemma_floor_sqrt_bounds, lemma_mul_within, lemma_square_monotone,
    sqrt_floor, LIMIT, ONE,
};
use crate::random::Sampler;

verus! {

pub type Color = Vec3;

pub type Point3 = Vec3;

#[derive(Clone, Copy, Debug, PartialEq, Eq, Structural)]
pub struct Vec3 {
    pub x: i64,
    pub y: i64,
    pub z: i64,
}

/// Every component lies in `[-m, m]`.
pub open spec fn within(v: Vec3, m: int) -> bool {
    -m <= v.x <= m && -m <= v.y <= m && -m <= v.z <= m
}

pub open spec fn is_zero(v: Vec3) -> bool {
    v.x == 0 && v.y == 0 && v.z == 0
}

/// The dot product of the raw components, at the scale `ONE * ONE`.
pub open spec fn dot_exact(a: Vec3, b: Vec3) -> int {
    a.x * b.x + a.y * b.y + a.z * b.z
}

/// The length of `v`, rounded down, as a fixed-point number.
pub open spec fn length_of(v: Vec3) -> int {
    floor_sqrt(dot_exact(v, v))
}

/// The length of `v` at the scale `ONE * ONE`, rounded down: one more
/// fixed-point step of precision, so that short vectors keep their
/// direction when scaled to unit length.
pub open spec fn fine_length_of(v: Vec3) -> int {
    floor_sqrt(dot_exact(v, v) * ONE_SQUARED)
}

/// `v` scaled to unit length, each component rounded down.
pub open spec fn unit_of(v: Vec3) -> Vec3 {
    let len = fine_length_of(v);
    Vec3 {
        x: (v.x * ONE * ONE / len) as i64,
        y: (v.y * ONE * ONE / len) as i64,
        z: (v.z * ONE * ONE / len) as i64,
    }
}

/// Each square of a component is at most the squared length.
pub open spec fn sub_of(a: Vec3, b: Vec3) -> Vec3 {
    Vec3 { x: (a.x - b.x) as i64, y: (a.y - b.y) as i64, z: (a.z - b.z) as i64 }
}

pub open spec fn add_of(a: Vec3, b: Vec3) -> Vec3 {
    Vec3 { x: (a.x + b.x) as i64, y: (a.y + b.y) as i64, z: (a.z + b.z) as i64 }
}

/// Each component times the fixed-point scalar `k`, rounded down.
pub open spec fn scale_of(v: Vec3, k: int) -> Vec3 {
    Vec3 {
        x: fmul(v.x as int, k) as i64,
        y: fmul(v.y as int, k) as i64,
        z: fmul(v.z as int, k) as i64,
    }
}

/// `x` held to `[0, 1]`.
pub open spec fn clamp_unit(x: int) -> int {
    if x < 0 {
        0
    } else if x > ONE {
        ONE as int
    } else {
        x
    }
}

/// The cosine of the angle between `n` and the reversed direction `u`,
/// held to `[0, 1]`.
pub open spec fn cos_between(n: Vec3, u: Vec3) -> int {
    clamp_unit(dot_exact(n, neg_of(u)) / (ONE as int))
}

/// The direction of `uv` refracted through a surface with unit normal `n`,
/// where `ratio` is the ratio of the refractive indices: the part across the
/// normal is `ratio (uv + cos n)`, and the part along it makes the result a
/// unit vector.
pub open spec fn refract_of(uv: Vec3, n: Vec3, ratio: int) -> Vec3 {
    let perp = scale_of(add_of(uv, scale_of(n, cos_between(n, uv))), ratio);
    let rest = (ONE as int) - dot_exact(perp, perp) / (ONE as int);
    let k = fsqrt(if rest < 0 { -rest } else { rest });
    add_of(perp, scale_of(n, -k))
}

pub open spec fn neg_of(v: Vec3) -> Vec3 {
    Vec3 { x: -v.x as i64, y: -v.y as i64, z: -v.z as i64 }
}

/// The component-wise product of two fixed-point vectors, rounded down.
pub open spec fn mul_of(a: Vec3, b: Vec3) -> Vec3 {
    Vec3 {
        x: fmul(a.x as int, b.x as int) as i64,
        y: fmul(a.y as int, b.y as int) as i64,
        z: fmul(a.z as int, b.z as int) as i64,
    }
}

/// `v - 2 (v . n) n`, with the dot product and each product rounded down.
pub open spec fn reflect_of(v: Vec3, n: Vec3) -> Vec3 {
    let k = 2 * (dot_exact(v, n) / (ONE as int));
    Vec3 {
        x: (v.x - fmul(n.x as int, k)) as i64,
        y: (v.y - fmul(n.y as int, k)) as i64,
        z: (v.z - fmul(n.z as int, k)) as i64,
    }
}

pub proof fn lemma_squares(v: Vec3)
    ensures
        0 <= v.x * v.x <= dot_exact(v, v),
        0 <= v.y * v.y <= dot_exact(v, v),
        0 <= v.z * v.z <= dot_exact(v, v),
{
    assert(0 <= v.x * v.x) by (nonlinear_arith);
    assert(0 <= v.y * v.y) by (nonlinear_arith);
    assert(0 <= v.z * v.z) by (nonlinear_arith);
}

/// A zero vector has a zero dot product with every vector.
pub proof fn lemma_dot_zero(a: Vec3, b: Vec3)
    requires
        is_zero(a),
    ensures
        dot_exact(a, b) == 0,
{
    assert(a.x * b.x + a.y * b.y + a.z * b.z == 0) by (nonlinear_arith)
        requires
            a.x == 0 && a.y == 0 && a.z == 0,
    ;
}

pub proof fn lemma_dot_exact_within(a: Vec3, b: Vec3, ma: int, mb: int)
    requires
        within(a, ma),
        within(b, mb),
    ensures
        -3 * (ma * mb) <= dot_exact(a, b) <= 3 * (ma * mb),
{
    lemma_mul_within(a.x as int, b.x as int, ma, mb);
    lemma_mul_within(a.y as int, b.y as int, ma, mb);
    lemma_mul_within(a.z as int, b.z as int, ma, mb);
}

/// The exact dot product, at the scale `ONE * ONE`.
pub fn dot_raw(a: &Vec3, b: &Vec3) -> (r: i128)
    requires
        within(*a, LIMIT as int),
        within(*b, LIMIT as int),
    ensures
        r == dot_exact(*a, *b),
{
    proof {
        lemma_dot_exact_within(*a, *b, LIMIT as int, LIMIT as int);
        lemma_mul_within(a.x as int, b.x as int, LIMIT as int, LIMIT as int);
        lemma_mul_within(a.y as int, b.y as int, LIMIT as int, LIMIT as int);
        lemma_mul_within(a.z as int, b.z as int, LIMIT as int, LIMIT as int);
    }
    a.x as i128 * b.x as i128 + a.y as i128 * b.y as i128 + a.z as i128 * b.z as i128
}

impl Vec3 {
    pub fn new(x: i64, y: i64, z: i64) -> (r: Vec3)
        ensures
            r == (Vec3 { x, y, z }),
    {
        Vec3 { x, y, z }
    }

    /// The length, rounded down.
    pub fn length(&self) -> (r: i64)
        requires
            within(*self, LIMIT as int),
        ensures
            r == length_of(*self),
            r >= 0,
    {
        let n = dot_raw(self, self);
        proof {
            lemma_dot_exact_within(*self, *self, LIMIT as int, LIMIT as int);
            lemma_squares(*self);
        }
        let s = sqrt_floor(n);
        proof {
            if s > 2_000_000_000_000 {
                lemma_square_monotone(2_000_000_000_000, s as int);
            }
        }
        s as i64
    }

    /// The squared length, rounded down.
    pub fn length_squared(&self) -> (r: i64)
        requires
            within(*self, LIMIT as int),
        ensures
            r == dot_exact(*self, *self) / (ONE as int),
    {
        let n = dot_raw(self, self);
        proof {
            lemma_dot_exact_within(*self, *self, LIMIT as int, LIMIT as int);
        }
        div_floor(n, ONE as i128) as i64
    }

    pub fn cross(&self, other: Vec3) -> (r: Vec3)
        requires
            within(*self, LIMIT as int),
            within(other, LIMIT as int),
        ensures
            r.x == (self.y * other.z - self.z * other.y) / (ONE as int),
            r.y == (self.z * other.x - self.x * other.z) / (ONE as int),
            r.z == (self.x * other.y - self.y * other.x) / (ONE as int),
    {
        proof {
            lemma_mul_within(self.y as int, other.z as int, LIMIT as int, LIMIT as int);
            lemma_mul_within(self.z as int, other.y as int, LIMIT as int, LIMIT as int);
            lemma_mul_within(self.z as int, other.x as int, LIMIT as int, LIMIT as int);
            lemma_mul_within(self.x as int, other.z as int, LIMIT as int, LIMIT as int);
            lemma_mul_within(self.x as int, other.y as int, LIMIT as int, LIMIT as int);
            lemma_mul_within(self.y as int, other.x as int, LIMIT as int, LIMIT as int);
        }
        let one = ONE as i128;
        let x = div_floor(self.y as i128 * other.z as i128 - self.z as i128 * other.y as i128, one);
        let y = div_floor(self.z as i128 * other.x as i128 - self.x as i128 * other.z as i128, one);
        let z = div_floor(self.x as i128 * other.y as i128 - self.y as i128 * other.x as i128, one);
        Vec3 { x: x as i64, y: y as i64, z: z as i64 }
    }

    /// The dot product, rounded down.
    pub fn dot(&self, other: Vec3) -> (r: i64)
        requires
            within(*self, LIMIT as int),
            within(other, LIMIT as int),
        ensures
            r == dot_exact(*self, other) / (ONE as int),
    {
        let n = dot_raw(self, &other);
        proof {
            lemma_dot_exact_within(*self, other, LIMIT as int, LIMIT as int);
        }
        div_floor(n, ONE as i128) as i64
    }

    /// The vector of length one in the same direction, each component
    /// rounded down.
    pub fn unit_vector(&self) -> (r: Vec3)
        requires
            within(*self, LIMIT as int),
            !is_zero(*self),
        ensures
            r == unit_of(*self),
            within(r, ONE as int),
    {
        let n = dot_raw(self, self);
        proof {
            lemma_dot_exact_within(*self, *self, LIMIT as int, LIMIT as int);
            lemma_squares(*self);
            lemma_unit_within(*self);
        }
        let l = sqrt_floor(n * ONE_SQUARED);
        let x = div_floor(self.x as i128 * ONE_SQUARED, l);
        let y = div_floor(self.y as i128 * ONE_SQUARED, l);
        let z = div_floor(self.z as i128 * ONE_SQUARED, l);
        proof {
            assert(self.x * ONE_SQUARED == self.x * ONE * ONE);
            assert(self.y * ONE_SQUARED == self.y * ONE * ONE);
            assert(self.z * ONE_SQUARED == self.z * ONE * ONE);
        }
        Vec3 { x: x as i64, y: y as i64, z: z as i64 }
    }

    /// A vector whose components are drawn from `[0, 1]`.
    pub fn random(rng: &mut Sampler) -> (r: Vec3)
        ensures
            within(r, ONE as int),
            r.x >= 0 && r.y >= 0 && r.z >= 0,
    {
        let x = rng.unit();
        let y = rng.unit();
        let z = rng.unit();
        Vec3 { x, y, z }
    }

    /// A vector whose components are drawn from `[min, max]`.
    pub fn random_range(rng: &mut Sampler, min: i64, max: i64) -> (r: Vec3)
        requires
            min <= max,
        ensures
            min <= r.x <= max,
            min <= r.y <= max,
            min <= r.z <= max,
    {
        let x = rng.between(min, max);
        let y = rng.between(min, max);
        let z = rng.between(min, max);
        Vec3 { x, y, z }
    }

    /// Whether every component is below the smallest step, that is zero.
    pub fn near_zero(&self) -> (r: bool)
        ensures
            r == is_zero(*self),
    {
        self.x == 0 && self.y == 0 && self.z == 0
    }

    /// The direction `self`, of length at most one, refracted through a
    /// surface with unit normal `n`; `ratio` is the ratio of the refractive
    /// indices.
    pub fn refract(self, n: Vec3, ratio: i64) -> (r: Vec3)
        requires
            within(self, ONE as int),
            within(n, ONE as int),
            0 <= ratio <= 100 * ONE,
        ensures
            r == refract_of(self, n, ratio as int),
            within(r, 600 * ONE as int),
    {
        let d = n.dot(self.neg());
        proof {
            lemma_dot_exact_within(n, neg_of(self), 1_000_000, 1_000_000);
            lemma_div_one_within(dot_exact(n, neg_of(self)), 3_000_000);
        }
        let cos_theta = if d < 0 {
            0
        } else if d > ONE {
            ONE
        } else {
            d
        };
        proof {
            lemma_mul_within(n.x as int, cos_theta as int, 1_000_000, 1_000_000);
            lemma_mul_within(n.y as int, cos_theta as int, 1_000_000, 1_000_000);
            lemma_mul_within(n.z as int, cos_theta as int, 1_000_000, 1_000_000);
            lemma_div_one_within(n.x * cos_theta, 1_000_000);
            lemma_div_one_within(n.y * cos_theta, 1_000_000);
            lemma_div_one_within(n.z * cos_theta, 1_000_000);
        }
        let sum = self.add(n.scale(cos_theta));
        proof {
            lemma_mul_within(sum.x as int, ratio as int, 2_000_000, 100_000_000);
            lemma_mul_within(sum.y as int, ratio as int, 2_000_000, 100_000_000);
            lemma_mul_within(sum.z as int, ratio as int, 2_000_000, 100_000_000);
            lemma_div_one_within(sum.x * ratio, 200_000_000);
            lemma_div_one_within(sum.y * ratio, 200_000_000);
            lemma_div_one_within(sum.z * ratio, 200_000_000);
        }
        let perp = sum.scale(ratio);
        let ls = perp.length_squared();
        proof {
            lemma_dot_exact_within(perp, perp, 200_000_000, 200_000_000);
            lemma_squares(perp);
            lemma_div_one_within(dot_exact(perp, perp), 120_000_000_000);
        }
        let rest = ONE - ls;
        let k = fixed_sqrt(if rest < 0 {
            -rest
        } else {
            rest
        });
        proof {
            if k > 350_000_000 {
                lemma_square_monotone(350_000_001, k as int);
            }
            lemma_mul_within(n.x as int, -k as int, 1_000_000, 350_000_000);
            lemma_mul_within(n.y as int, -k as int, 1_000_000, 350_000_000);
            lemma_mul_within(n.z as int, -k as int, 1_000_000, 350_000_000);
            lemma_div_one_within(n.x * -k, 350_000_000);
            lemma_div_one_within(n.y * -k, 350_000_000);
            lemma_div_one_within(n.z * -k, 350_000_000);
        }
        let parallel = n.scale(-k);
        let r = perp.add(parallel);
        proof {
            assert(sum == add_of(self, scale_of(n, cos_theta as int)));
            assert(perp == scale_of(sum, ratio as int));
            assert(parallel == scale_of(n, -k));
        }
        r
    }

    /// `self - 2 (self . n) n`: the mirror image of `self` in the plane
    /// normal to `n`.
    pub fn reflect(self, n: Vec3) -> (r: Vec3)
        requires
            within(self, 2 * ONE as int),
            within(n, 2 * ONE as int),
        ensures
            r == reflect_of(self, n),
            within(r, 50 * ONE as int),
    {
        let d = self.dot(n);
        proof {
            lemma_dot_exact_within(self, n, 2 * ONE as int, 2 * ONE as int);
            assert(3 * ((2 * ONE as int) * (2 * ONE as int)) == (12 * ONE as int) * ONE)
                by (nonlinear_arith)
                requires
                    ONE == 1_000_000,
            ;
            lemma_div_one_within(dot_exact(self, n), 12 * ONE as int);
        }
        let k = 2 * d;
        let m = n.scale(k);
        proof {
            lemma_mul_within(n.x as int, k as int, 2 * ONE as int, 24 * ONE as int);
            lemma_mul_within(n.y as int, k as int, 2 * ONE as int, 24 * ONE as int);
            lemma_mul_within(n.z as int, k as int, 2 * ONE as int, 24 * ONE as int);
            lemma_div_one_within(n.x * k, 48 * ONE as int);
            lemma_div_one_within(n.y * k, 48 * ONE as int);
            lemma_div_one_within(n.z * k, 48 * ONE as int);
        }
        self.sub(m)
    }

    pub fn add(self, rhs: Vec3) -> (r: Vec3)
        requires
            i64::MIN <= self.x + rhs.x <= i64::MAX,
            i64::MIN <= self.y + rhs.y <= i64::MAX,
            i64::MIN <= self.z + rhs.z <= i64::MAX,
        ensures
            r.x == self.x + rhs.x,
            r.y == self.y + rhs.y,
            r.z == self.z + rhs.z,
    {
        Vec3 { x: self.x + rhs.x, y: self.y + rhs.y, z: self.z + rhs.z }
    }

    pub fn add_assign(&mut self, rhs: Vec3)
        requires
            i64::MIN <= old(self).x + rhs.x <= i64::MAX,
            i64::MIN <= old(self).y + rhs.y <= i64::MAX,
            i64::MIN <= old(self).z + rhs.z <= i64::MAX,
        ensures
            final(self).x == old(self).x + rhs.x,
            final(self).y == old(self).y + rhs.y,
            final(self).z == old(self).z + rhs.z,
    {
        *self = self.add(rhs);
    }

    pub fn sub(self, rhs: Vec3) -> (r: Vec3)
        requires
            i64::MIN <= self.x - rhs.x <= i64::MAX,
            i64::MIN <= self.y - rhs.y <= i64::MAX,
            i64::MIN <= self.z - rhs.z <= i64::MAX,
        ensures
            r.x == self.x - rhs.x,
            r.y == self.y - rhs.y,
            r.z == self.z - rhs.z,
    {
        Vec3 { x: self.x - rhs.x, y: self.y - rhs.y, z: self.z - rhs.z }
    }

    pub fn neg(self) -> (r: Vec3)
        requires
            self.x > i64::MIN && self.y > i64::MIN && self.z > i64::MIN,
        ensures
            r.x == -self.x,
            r.y == -self.y,
            r.z == -self.z,
    {
        Vec3 { x: -self.x, y: -self.y, z: -self.z }
    }

    /// Each component times the fixed-point scalar `k`, rounded down.
    pub fn scale(self, k: i64) -> (r: Vec3)
        requires
            within(self, LIMIT as int),
            -LIMIT <= k <= LIMIT,
        ensures
            r.x == fmul(self.x as int, k as int),
            r.y == fmul(self.y as int, k as int),
            r.z == fmul(self.z as int, k as int),
    {
        Vec3 { x: fixed_mul(self.x, k), y: fixed_mul(self.y, k), z: fixed_mul(self.z, k) }
    }

    pub fn mul_assign(&mut self, k: i64)
        requires
            within(*old(self), LIMIT as int),
            -LIMIT <= k <= LIMIT,
        ensures
            final(self).x == fmul(old(self).x as int, k as int),
            final(self).y == fmul(old(self).y as int, k as int),
            final(self).z == fmul(old(self).z as int, k as int),
    {
        *self = self.scale(k);
    }

    /// The component-wise product, rounded down.
    pub fn mul(self, rhs: Vec3) -> (r: Vec3)
        requires
            within(self, LIMIT as int),
            within(rhs, LIMIT as int),
        ensures
            r == mul_of(self, rhs),
    {
        Vec3 {
            x: fixed_mul(self.x, rhs.x),
            y: fixed_mul(self.y, rhs.y),
            z: fixed_mul(self.z, rhs.z),
        }
    }

    /// Each component divided by the non-zero fixed-point scalar `k`,
    /// rounded down.
    pub fn div(self, k: i64) -> (r: Vec3)
        requires
            within(self, LIMIT as int),
            k != 0,
        ensures
            r.x == fdiv(self.x as int, k as int),
            r.y == fdiv(self.y as int, k as int),
            r.z == fdiv(self.z as int, k as int),
    {
        Vec3 { x: fixed_div(self.x, k), y: fixed_div(self.y, k), z: fixed_div(self.z, k) }
    }

    pub fn div_assign(&mut self, k: i64)
        requires
            within(*old(self), LIMIT as int),
            k != 0,
        ensures
            final(self).x == fdiv(old(self).x as int, k as int),
            final(self).y == fdiv(old(self).y as int, k as int),
            final(self).z == fdiv(old(self).z as int, k as int),
    {
        *self = self.div(k);
    }

    /// Sets the component at `index`: 0 is x, 1 is y, 2 is z.
    pub fn set_index(&mut self, index: usize, value: i64)
        requires
            index < 3,
        ensures
            final(self).x == if index == 0 { value } else { old(self).x },
            final(self).y == if index == 1 { value } else { old(self).y },
            final(self).z == if index == 2 { value } else { old(self).z },
    {
        if index == 0 {
            self.x = value;
        } else if index == 1 {
            self.y = value;
        } else {
            self.z = value;
        }
    }

    /// The component at `index`: 0 is x, 1 is y, 2 is z.
    pub fn index(&self, index: usize) -> (r: i64)
        requires
            index < 3,
        ensures
            index == 0 ==> r == self.x,
            index == 1 ==> r == self.y,
            index == 2 ==> r == self.z,
    {
        if index == 0 {
            self.x
        } else if index == 1 {
            self.y
        } else {
            self.z
        }
    }
}

/// A vector scaled to unit length has every component in `[-1, 1]`.
pub proof fn lemma_unit_within(v: Vec3)
    requires
        !is_zero(v),
    ensures
        fine_length_of(v) > 0,
        within(unit_of(v), ONE as int),
        -fine_length_of(v) <= v.x * ONE <= fine_length_of(v),
        -fine_length_of(v) <= v.y * ONE <= fine_length_of(v),
        -fine_length_of(v) <= v.z * ONE <= fine_length_of(v),
        v.x * ONE * ONE / fine_length_of(v) == unit_of(v).x,
        v.y * ONE * ONE / fine_length_of(v) == unit_of(v).y,
        v.z * ONE * ONE / fine_length_of(v) == unit_of(v).z,
{
    let n = dot_exact(v, v);
    let big = n * ONE_SQUARED;
    lemma_squares(v);
    lemma_scaled_square(v.x as int, n);
    lemma_scaled_square(v.y as int, n);
    lemma_scaled_square(v.z as int, n);
    lemma_floor_sqrt_bounds(big, v.x * ONE);
    lemma_floor_sqrt_bounds(big, v.y * ONE);
    lemma_floor_sqrt_bounds(big, v.z * ONE);
    let len = fine_length_of(v);
    assert(len > 0);
    lemma_unit_component(v.x * ONE, len);
    lemma_unit_component(v.y * ONE, len);
    lemma_unit_component(v.z * ONE, len);
}

/// `(c ONE)^2 <= n ONE^2` when `c^2 <= n`.
pub proof fn lemma_scaled_square(c: int, n: int)
    requires
        c * c <= n,
    ensures
        (c * ONE) * (c * ONE) <= n * ONE_SQUARED,
        n * ONE_SQUARED >= 0 || n < 0,
{
    assert((c * ONE) * (c * ONE) <= n * ONE_SQUARED) by (nonlinear_arith)
        requires
            c * c <= n,
            ONE == 1_000_000,
            ONE_SQUARED == 1_000_000_000_000,
    ;
}

pub proof fn lemma_unit_component(c: int, len: int)
    requires
        len > 0,
        c <= len,
        -c <= len,
    ensures
        -(ONE as int) <= c * (ONE as int) / len <= ONE as int,
{
    let one = ONE as int;
    assert(-one <= c * one / len <= one) by (nonlinear_arith)
        requires
            len > 0,
            c <= len,
            -c <= len,
            one > 0,
    {
        let q = c * one / len;
        assert(c * one == len * q + (c * one) % len);
        assert(0 <= (c * one) % len < len);
    }
}

} // verus!
