//! Spheres, and where a ray meets one.
use vstd::prelude::*;

use crate::fixed::{
    ONE_SQUARED, div_floor, floor_sqrt, fmul, lemma_floor_sqrt_exists, lemma_mul_within,
    lemma_square_monotone, sqrt_floor, ONE,
};
use crate::hittable::{facing_normal, HitRecord};
use crate::material::{material_valid, Material};
use crate::ray::{at_of, traceable, Ray, WORLD};
use crate::vec3::{
    dot_exact, dot_raw, fine_length_of, is_zero, lemma_dot_exact_within, lemma_squares,
    lemma_unit_within, neg_of, sub_of, unit_of, within, Point3, Vec3,
};

verus! {

/// A sphere. A negative radius keeps the same surface but turns its normals
/// inward, which models the inside of a hollow shell.
#[derive(Clone, Copy, Debug, PartialEq, Eq, Structural)]
pub struct Sphere {
    pub center: Point3,
    pub radius: i64,
    pub material: Material,
}

/// How far, in fixed-point steps, a computed hit point may lie beyond the
/// sphere's surface: one step of rounding in the ray parameter moves it by
/// at most the direction's magnitude (at most `WORLD`, that is 1000 steps),
/// and one more step of rounding in the point itself.
pub const ROUNDING_SLACK: i64 = 1_001;

pub open spec fn abs(x: int) -> int {
    if x < 0 {
        -x
    } else {
        x
    }
}

/// The whole sphere, widened by `ROUNDING_SLACK`, lies inside the world's
/// range; the radius is not zero; the material is valid.
pub open spec fn sphere_valid(s: Sphere) -> bool {
    let m = WORLD - abs(s.radius as int) - ROUNDING_SLACK;
    s.radius != 0 && -WORLD <= s.radius <= WORLD && -m <= s.center.x <= m && -m <= s.center.y <= m
        && -m <= s.center.z <= m && material_valid(s.material)
}

/// The quadratic `a t^2 + 2 half_b t + c = 0` whose roots are where the ray
/// meets the sphere; its coefficients are at the scale `ONE * ONE`.
pub open spec fn quad_a(r: Ray) -> int {
    dot_exact(r.direction, r.direction)
}

pub open spec fn half_b(s: Sphere, r: Ray) -> int {
    dot_exact(sub_of(r.origin, s.center), r.direction)
}

pub open spec fn quad_c(s: Sphere, r: Ray) -> int {
    dot_exact(sub_of(r.origin, s.center), sub_of(r.origin, s.center)) - s.radius * s.radius
}

pub open spec fn discriminant(s: Sphere, r: Ray) -> int {
    half_b(s, r) * half_b(s, r) - quad_a(r) * quad_c(s, r)
}

/// The smaller root, as a fixed-point ray parameter rounded down.
pub open spec fn near_root(s: Sphere, r: Ray) -> int {
    (-half_b(s, r) - floor_sqrt(discriminant(s, r))) * (ONE as int) / quad_a(r)
}

/// The larger root, as a fixed-point ray parameter rounded down.
pub open spec fn far_root(s: Sphere, r: Ray) -> int {
    (-half_b(s, r) + floor_sqrt(discriminant(s, r))) * (ONE as int) / quad_a(r)
}

/// The smallest root in `(t_min, t_max]`, if there is one.
pub open spec fn chosen_root(s: Sphere, r: Ray, t_min: int, t_max: int) -> Option<int> {
    if discriminant(s, r) < 0 {
        None
    } else if t_min < near_root(s, r) <= t_max {
        Some(near_root(s, r))
    } else if t_min < far_root(s, r) <= t_max {
        Some(far_root(s, r))
    } else {
        None
    }
}

pub open spec fn hit_point(r: Ray, t: int) -> Point3 {
    let p = at_of(r, t);
    Vec3 { x: p.0 as i64, y: p.1 as i64, z: p.2 as i64 }
}

/// The unit normal at `p` pointing away from the center, turned inward for
/// a negative radius: `(p - center) / radius` on the surface. Where rounding
/// puts the point on the center itself, which has no direction, the normal
/// is taken against the ray.
pub open spec fn outward_normal(s: Sphere, r: Ray, p: Point3) -> Vec3 {
    if p == s.center {
        neg_of(unit_of(r.direction))
    } else {
        let u = unit_of(sub_of(p, s.center));
        if s.radius > 0 {
            u
        } else {
            neg_of(u)
        }
    }
}

pub open spec fn record_at(s: Sphere, r: Ray, t: int) -> HitRecord {
    let p = hit_point(r, t);
    let o = outward_normal(s, r, p);
    HitRecord {
        p,
        normal: facing_normal(r.direction, o),
        t: t as i64,
        front_face: dot_exact(r.direction, o) < 0,
        material: s.material,
    }
}

/// Where the ray meets the sphere first within `(t_min, t_max]`: no hit
/// exactly when the discriminant is negative or neither root lies in the
/// range.
pub open spec fn sphere_hit(s: Sphere, r: Ray, t_min: int, t_max: int) -> Option<HitRecord> {
    match chosen_root(s, r, t_min, t_max) {
        None => None,
        Some(t) => Some(record_at(s, r, t)),
    }
}

/// The near root never exceeds the far root.
pub proof fn lemma_roots_ordered(s: Sphere, r: Ray)
    requires
        traceable(r),
        discriminant(s, r) >= 0,
    ensures
        near_root(s, r) <= far_root(s, r),
{
    lemma_floor_sqrt_exists(discriminant(s, r));
    lemma_squares(r.direction);
    let a = quad_a(r);
    let d = r.direction;
    if d.x != 0 {
        assert(d.x * d.x >= 1) by (nonlinear_arith)
            requires
                d.x != 0,
        ;
    } else if d.y != 0 {
        assert(d.y * d.y >= 1) by (nonlinear_arith)
            requires
                d.y != 0,
        ;
    } else {
        assert(d.z * d.z >= 1) by (nonlinear_arith)
            requires
                d.z != 0,
        ;
    }
    let sd = floor_sqrt(discriminant(s, r));
    let lo = (-half_b(s, r) - sd) * (ONE as int);
    let hi = (-half_b(s, r) + sd) * (ONE as int);
    assert(lo <= hi) by (nonlinear_arith)
        requires
            sd >= 0,
            lo == (-half_b(s, r) - sd) * (ONE as int),
            hi == (-half_b(s, r) + sd) * (ONE as int),
            ONE > 0,
    ;
    vstd::arithmetic::div_mod::lemma_div_is_ordered(lo, hi, a);
}

/// Narrowing the upper end of the range to `b` keeps the hit found over
/// `(t_min, t_max]` exactly when its parameter is at most `b`, and finds
/// no other.
pub proof fn lemma_hit_bound(s: Sphere, r: Ray, t_min: int, b: int, t_max: int)
    requires
        traceable(r),
        i64::MIN <= t_min,
        b <= t_max <= i64::MAX,
    ensures
        sphere_hit(s, r, t_min, b) == (match sphere_hit(s, r, t_min, t_max) {
            Some(h) => if h.t <= b {
                Some(h)
            } else {
                None
            },
            None => None,
        }),
        sphere_hit(s, r, t_min, t_max) matches Some(h) ==> t_min < h.t <= t_max,
{
    if discriminant(s, r) >= 0 {
        lemma_roots_ordered(s, r);
    }
}

/// A ray aimed at the center from outside meets the sphere at the distance
/// to the center less the radius, to within one fixed-point step of the ray
/// parameter. With the direction `d = center - origin` (so the parameter 1
/// reaches the center), `A = |d|^2 >= ONE` and `e = ONE - t` for the near
/// root `t`: `0 <= t < ONE` and `r / |d|` lies strictly between `(e - 1) /
/// ONE` and `(e + 1) / ONE`, written below with squares. The outward normal
/// at any point is the unit vector from the center toward it.
pub proof fn lemma_aimed_at_center(s: Sphere, r: Ray)
    requires
        sphere_valid(s),
        traceable(r),
        s.radius > 0,
        r.direction == sub_of(s.center, r.origin),
        s.radius * s.radius < quad_a(r),
        quad_a(r) >= ONE,
    ensures
        discriminant(s, r) >= 0,
        0 <= near_root(s, r) < ONE,
        ({
            let e = ONE - near_root(s, r);
            let big_a = quad_a(r);
            let rr = s.radius * s.radius * ONE * ONE;
            (e >= 1 ==> (e - 1) * (e - 1) * big_a < rr) && rr < (e + 1) * (e + 1) * big_a
        }),
        forall|p: Point3|
            p != s.center ==> outward_normal(s, r, p) == unit_of(#[trigger] sub_of(p, s.center)),
{
    let d = r.direction;
    let big_a = quad_a(r);
    let rad = s.radius as int;
    let one = ONE as int;
    let oc = sub_of(r.origin, s.center);
    assert(oc.x == -d.x && oc.y == -d.y && oc.z == -d.z);
    assert(half_b(s, r) == -big_a) by (nonlinear_arith)
        requires
            oc.x == -d.x && oc.y == -d.y && oc.z == -d.z,
            half_b(s, r) == oc.x * d.x + oc.y * d.y + oc.z * d.z,
            big_a == d.x * d.x + d.y * d.y + d.z * d.z,
    ;
    assert(dot_exact(oc, oc) == big_a) by (nonlinear_arith)
        requires
            oc.x == -d.x && oc.y == -d.y && oc.z == -d.z,
            big_a == d.x * d.x + d.y * d.y + d.z * d.z,
            dot_exact(oc, oc) == oc.x * oc.x + oc.y * oc.y + oc.z * oc.z,
    ;
    let disc = discriminant(s, r);
    assert(disc == big_a * (rad * rad)) by (nonlinear_arith)
        requires
            disc == half_b(s, r) * half_b(s, r) - big_a * quad_c(s, r),
            half_b(s, r) == -big_a,
            quad_c(s, r) == big_a - rad * rad,
    ;
    assert(rad * rad >= 1) by (nonlinear_arith)
        requires
            rad >= 1,
    ;
    assert(disc >= 1) by (nonlinear_arith)
        requires
            disc == big_a * (rad * rad),
            big_a >= 1,
            rad * rad >= 1,
    ;
    lemma_floor_sqrt_exists(disc);
    let sd = floor_sqrt(disc);
    // sd >= 1, and sd < big_a because sd^2 <= A r^2 < A^2
    assert(sd >= 1) by (nonlinear_arith)
        requires
            disc >= 1,
            disc < (sd + 1) * (sd + 1),
            sd >= 0,
    ;
    assert(sd < big_a) by (nonlinear_arith)
        requires
            sd * sd <= disc,
            disc == big_a * (rad * rad),
            rad * rad < big_a,
            sd >= 1,
            big_a >= 1,
    ;
    let num = (big_a - sd) * one;
    let q = near_root(s, r);
    assert(q == num / big_a);
    assert(q * big_a <= num < (q + 1) * big_a && 0 <= q < one) by (nonlinear_arith)
        requires
            q == num / big_a,
            num == (big_a - sd) * one,
            big_a >= 1,
            1 <= sd < big_a,
            one > 0,
    {
        assert(num == big_a * (num / big_a) + num % big_a);
        assert(0 <= num % big_a < big_a);
    }
    let e = one - q;
    // s ONE <= e A < s ONE + A
    assert(sd * one <= e * big_a < sd * one + big_a) by (nonlinear_arith)
        requires
            e == one - q,
            q * big_a <= (big_a - sd) * one,
            (big_a - sd) * one < (q + 1) * big_a,
    ;
    let rr = rad * rad * one * one;
    // upper: rr * A < ((s + 1) ONE)^2 <= ((e + 1) A)^2
    assert(rr < (e + 1) * (e + 1) * big_a) by (nonlinear_arith)
        requires
            disc < (sd + 1) * (sd + 1),
            disc == big_a * (rad * rad),
            rr == rad * rad * one * one,
            sd * one <= e * big_a,
            big_a >= one,
            one > 0,
            sd >= 1,
            big_a >= 1,
    {
        let lhs = (sd + 1) * one;
        let rhs = (e + 1) * big_a;
        assert(lhs <= rhs);
        assert(lhs * lhs <= rhs * rhs) by (nonlinear_arith)
            requires
                0 <= lhs <= rhs,
        ;
        assert(rr * big_a < lhs * lhs) by (nonlinear_arith)
            requires
                big_a * (rad * rad) < (sd + 1) * (sd + 1),
                rr == rad * rad * one * one,
                lhs == (sd + 1) * one,
                one > 0,
        ;
        assert(rr * big_a < ((e + 1) * (e + 1) * big_a) * big_a) by (nonlinear_arith)
            requires
                rr * big_a < lhs * lhs,
                lhs * lhs <= rhs * rhs,
                rhs == (e + 1) * big_a,
        ;
    }
    // lower: ((e - 1) A)^2 < (s ONE)^2 <= rr * A
    if e >= 1 {
        assert((e - 1) * (e - 1) * big_a < rr) by (nonlinear_arith)
            requires
                e >= 1,
                e * big_a < sd * one + big_a,
                sd * sd <= disc,
                disc == big_a * (rad * rad),
                rr == rad * rad * one * one,
                big_a >= 1,
                sd >= 1,
                one > 0,
        {
            let lo = (e - 1) * big_a;
            let hi = sd * one;
            assert(0 <= lo < hi);
            assert(lo * lo < hi * hi) by (nonlinear_arith)
                requires
                    0 <= lo < hi,
            ;
            assert(hi * hi <= rr * big_a) by (nonlinear_arith)
                requires
                    sd * sd <= big_a * (rad * rad),
                    hi == sd * one,
                    rr == rad * rad * one * one,
            ;
            assert(((e - 1) * (e - 1) * big_a) * big_a < rr * big_a) by (nonlinear_arith)
                requires
                    lo * lo < hi * hi,
                    hi * hi <= rr * big_a,
                    lo == (e - 1) * big_a,
            ;
        }
    }
}

/// For a ray from outside aimed at the center, with the near root inside the
/// range asked for: a reported hit is at the near root, on the front face,
/// and its normal is the unit vector from the center toward the hit point.
pub proof fn lemma_aimed_hit_faces_out(s: Sphere, r: Ray, t_min: int, t_max: int)
    requires
        sphere_valid(s),
        traceable(r),
        s.radius > 0,
        r.direction == sub_of(s.center, r.origin),
        s.radius * s.radius < quad_a(r),
        quad_a(r) >= ONE,
        i64::MIN <= t_min < near_root(s, r) <= t_max <= i64::MAX,
    ensures
        sphere_hit(s, r, t_min, t_max) is Some,
        sphere_hit(s, r, t_min, t_max)->Some_0.t == near_root(s, r),
        sphere_hit(s, r, t_min, t_max)->Some_0.p != s.center ==> sphere_hit(
            s,
            r,
            t_min,
            t_max,
        )->Some_0.front_face && sphere_hit(s, r, t_min, t_max)->Some_0.normal == unit_of(
            sub_of(sphere_hit(s, r, t_min, t_max)->Some_0.p, s.center),
        ),
{
    lemma_aimed_at_center(s, r);
    let t = near_root(s, r);
    assert(chosen_root(s, r, t_min, t_max) == Some(t));
    if let Some(h) = sphere_hit(s, r, t_min, t_max) {
        let o = r.origin;
        let d = r.direction;
        let p = hit_point(r, t);
        assert(p == h.p);
        lemma_root_point_near(s, r, t);
        let v = sub_of(p, s.center);
        lemma_short_of_target(o.x as int, d.x as int, t);
        lemma_short_of_target(o.y as int, d.y as int, t);
        lemma_short_of_target(o.z as int, d.z as int, t);
        if p != s.center {
            assert(!is_zero(v));
            lemma_against(d, v);
        }
    }
}

/// With `n = -half_b -+ sd` for the floor square root `sd` of the
/// discriminant, the point `oc + (n / a) d` lies inside the sphere: each
/// `(a oc_i + d_i n)^2` is at most `(a r)^2`.
proof fn lemma_root_inside(s: Sphere, r: Ray, n: int)
    requires
        discriminant(s, r) >= 0,
        (n + half_b(s, r)) * (n + half_b(s, r)) == floor_sqrt(discriminant(s, r)) * floor_sqrt(
            discriminant(s, r),
        ),
    ensures
        ({
            let oc = sub_of(r.origin, s.center);
            let d = r.direction;
            let a = quad_a(r);
            let ar = a * s.radius;
            &&& (a * oc.x + d.x * n) * (a * oc.x + d.x * n) <= ar * ar
            &&& (a * oc.y + d.y * n) * (a * oc.y + d.y * n) <= ar * ar
            &&& (a * oc.z + d.z * n) * (a * oc.z + d.z * n) <= ar * ar
        }),
{
    let oc = sub_of(r.origin, s.center);
    let d = r.direction;
    let a = quad_a(r);
    let hb = half_b(s, r);
    let disc = discriminant(s, r);
    let rad = s.radius as int;
    lemma_floor_sqrt_exists(disc);
    let sd = floor_sqrt(disc);
    let (ox, oy, oz) = (oc.x as int, oc.y as int, oc.z as int);
    let (dx, dy, dz) = (d.x as int, d.y as int, d.z as int);
    let ex = a * ox + dx * n;
    let ey = a * oy + dy * n;
    let ez = a * oz + dz * n;
    let l2 = ox * ox + oy * oy + oz * oz;
    lemma_square_expand(a, ox, dx, n);
    lemma_square_expand(a, oy, dy, n);
    lemma_square_expand(a, oz, dz, n);
    let aa = a * a;
    let an2 = 2 * a * n;
    let nn = n * n;
    assert(aa * (ox * ox) + aa * (oy * oy) + aa * (oz * oz) == aa * l2) by (nonlinear_arith)
        requires
            l2 == ox * ox + oy * oy + oz * oz,
    ;
    assert(an2 * (ox * dx) + an2 * (oy * dy) + an2 * (oz * dz) == an2 * hb) by (nonlinear_arith)
        requires
            hb == ox * dx + oy * dy + oz * dz,
    ;
    assert(nn * (dx * dx) + nn * (dy * dy) + nn * (dz * dz) == nn * a) by (nonlinear_arith)
        requires
            a == dx * dx + dy * dy + dz * dz,
    ;
    assert(ex * ex + ey * ey + ez * ez == aa * l2 + an2 * hb + nn * a);
    // with (n + hb)^2 == sd^2 and disc == hb^2 - a (l2 - r^2)
    assert(nn * a + an2 * hb == a * (sd * sd) - a * (hb * hb)) by (nonlinear_arith)
        requires
            (n + hb) * (n + hb) == sd * sd,
            nn == n * n,
            an2 == 2 * a * n,
    ;
    assert(a * disc == a * (hb * hb) - aa * l2 + (a * rad) * (a * rad)) by (nonlinear_arith)
        requires
            disc == hb * hb - a * (l2 - rad * rad),
            aa == a * a,
    ;
    assert(a >= 0) by {
        lemma_squares(d);
    }
    assert(a * (sd * sd) <= a * disc) by (nonlinear_arith)
        requires
            sd * sd <= disc,
            a >= 0,
    ;
    assert(ex * ex + ey * ey + ez * ez <= (a * rad) * (a * rad));
    assert(0 <= ex * ex && 0 <= ey * ey && 0 <= ez * ez) by (nonlinear_arith);
}

proof fn lemma_square_expand(a: int, o: int, d: int, n: int)
    ensures
        (a * o + d * n) * (a * o + d * n) == (a * a) * (o * o) + (2 * a * n) * (o * d) + (n * n)
            * (d * d),
{
    let x = a * o;
    let y = d * n;
    assert((x + y) * (x + y) == x * x + 2 * (x * y) + y * y) by (nonlinear_arith);
    assert(x * x == (a * a) * (o * o)) by (nonlinear_arith)
        requires
            x == a * o,
    ;
    assert(y * y == (n * n) * (d * d)) by (nonlinear_arith)
        requires
            y == d * n,
    ;
    assert(x * y == (a * n) * (o * d)) by (nonlinear_arith)
        requires
            x == a * o,
            y == d * n,
    ;
    assert(2 * ((a * n) * (o * d)) == (2 * a * n) * (o * d)) by (nonlinear_arith);
}

/// One component of a computed hit point: from `(a o + d n)^2 <= (a r)^2`,
/// `t = floor(n ONE / a)` and `f = floor(d t / ONE)`, the point `o + f` lies
/// within `r + ROUNDING_SLACK`.
proof fn lemma_point_component(o: int, d: int, a: int, n: int, t: int, rad: int)
    requires
        (a * o + d * n) * (a * o + d * n) <= (a * rad) * (a * rad),
        rad >= 0,
        a >= 1,
        -WORLD <= d <= WORLD,
        t == n * ONE / a,
    ensures
        -(rad + ROUNDING_SLACK) <= o + fmul(d, t) <= rad + ROUNDING_SLACK,
{
    let one = ONE as int;
    let x = a * o + d * n;
    let f = fmul(d, t);
    if x > a * rad {
        lemma_square_monotone(a * rad, x);
        assert(x * x > (a * rad) * (a * rad)) by (nonlinear_arith)
            requires
                x > a * rad,
                a * rad >= 0,
        ;
    }
    if -x > a * rad {
        lemma_square_monotone(a * rad, -x);
        assert((-x) * (-x) > (a * rad) * (a * rad)) by (nonlinear_arith)
            requires
                -x > a * rad,
                a * rad >= 0,
        ;
        assert((-x) * (-x) == x * x) by (nonlinear_arith);
    }
    assert(t * a <= n * one < (t + 1) * a) by (nonlinear_arith)
        requires
            t == n * one / a,
            a >= 1,
    {
        assert(n * one == a * (n * one / a) + (n * one) % a);
        assert(0 <= (n * one) % a < a);
    }
    assert(f * one <= d * t < (f + 1) * one) by (nonlinear_arith)
        requires
            f == d * t / one,
            one > 0,
    {
        assert(d * t == one * (d * t / one) + (d * t) % one);
        assert(0 <= (d * t) % one < one);
    }
    // a ONE (o + f) = ONE x + (a ONE f - d n ONE), and the second term is small
    let w = WORLD as int;
    let dabs = abs(d);
    assert(-(a * one) - dabs * a <= a * one * f - d * n * one <= dabs * a) by (nonlinear_arith)
        requires
            f * one <= d * t < (f + 1) * one,
            t * a <= n * one < (t + 1) * a,
            dabs == d || dabs == -d,
            dabs >= 0,
            a >= 1,
            one > 0,
    {
        // a d t differs from d n ONE by at most |d| a
        assert(-(dabs * a) <= a * d * t - d * n * one <= dabs * a) by (nonlinear_arith)
            requires
                t * a <= n * one < (t + 1) * a,
                dabs == d || dabs == -d,
                dabs >= 0,
                a >= 1,
        ;
        assert(a * d * t - a * one < a * one * f <= a * d * t) by (nonlinear_arith)
            requires
                f * one <= d * t < (f + 1) * one,
                a >= 1,
        ;
    }
    assert(-(rad + ROUNDING_SLACK) <= o + f <= rad + ROUNDING_SLACK) by (nonlinear_arith)
        requires
            -(a * rad) <= x <= a * rad,
            x == a * o + d * n,
            -(a * one) - dabs * a <= a * one * f - d * n * one <= dabs * a,
            0 <= dabs <= w,
            w == 1000 * one,
            one == 1_000_000,
            a >= 1,
            ROUNDING_SLACK == 1_001,
    {
        let y = a * one * (o + f);
        assert(y == one * x + (a * one * f - d * n * one)) by (nonlinear_arith)
            requires
                x == a * o + d * n,
                y == a * one * (o + f),
        ;
        assert(dabs * a <= 1000 * one * a) by (nonlinear_arith)
            requires
                0 <= dabs <= 1000 * one,
                a >= 1,
        ;
        assert(-(a * one * (rad + 1001)) <= y <= a * one * (rad + 1001)) by (nonlinear_arith)
            requires
                y == one * x + (a * one * f - d * n * one),
                -(a * rad) <= x <= a * rad,
                -(a * one) - dabs * a <= a * one * f - d * n * one <= dabs * a,
                dabs * a <= 1000 * one * a,
                one > 0,
        ;
        assert(-(rad + 1001) <= o + f <= rad + 1001) by (nonlinear_arith)
            requires
                -(a * one * (rad + 1001)) <= a * one * (o + f) <= a * one * (rad + 1001),
                a * one > 0,
        ;
    }
}

/// The point at either root lies within `|r| + ROUNDING_SLACK` of the
/// center in each coordinate, hence inside the world's range.
pub proof fn lemma_root_point_near(s: Sphere, r: Ray, t: int)
    requires
        sphere_valid(s),
        traceable(r),
        discriminant(s, r) >= 0,
        t == near_root(s, r) || t == far_root(s, r),
    ensures
        -(abs(s.radius as int) + ROUNDING_SLACK) <= at_of(r, t).0 - s.center.x <= abs(
            s.radius as int,
        ) + ROUNDING_SLACK,
        -(abs(s.radius as int) + ROUNDING_SLACK) <= at_of(r, t).1 - s.center.y <= abs(
            s.radius as int,
        ) + ROUNDING_SLACK,
        -(abs(s.radius as int) + ROUNDING_SLACK) <= at_of(r, t).2 - s.center.z <= abs(
            s.radius as int,
        ) + ROUNDING_SLACK,
        -WORLD <= at_of(r, t).0 <= WORLD,
        -WORLD <= at_of(r, t).1 <= WORLD,
        -WORLD <= at_of(r, t).2 <= WORLD,
{
    let disc = discriminant(s, r);
    lemma_floor_sqrt_exists(disc);
    let sd = floor_sqrt(disc);
    let hb = half_b(s, r);
    let n = if t == near_root(s, r) { -hb - sd } else { -hb + sd };
    assert((n + hb) * (n + hb) == sd * sd) by (nonlinear_arith)
        requires
            n == -hb - sd || n == -hb + sd,
    ;
    lemma_root_inside(s, r, n);
    let a = quad_a(r);
    let rad = abs(s.radius as int);
    let ar = a * s.radius;
    assert(ar * ar == (a * rad) * (a * rad)) by (nonlinear_arith)
        requires
            ar == a * s.radius,
            rad == s.radius || rad == -s.radius,
    ;
    lemma_squares(r.direction);
    let d = r.direction;
    if d.x != 0 {
        assert(d.x * d.x >= 1) by (nonlinear_arith)
            requires
                d.x != 0,
        ;
    } else if d.y != 0 {
        assert(d.y * d.y >= 1) by (nonlinear_arith)
            requires
                d.y != 0,
        ;
    } else {
        assert(d.z * d.z >= 1) by (nonlinear_arith)
            requires
                d.z != 0,
        ;
    }
    let oc = sub_of(r.origin, s.center);
    if t == near_root(s, r) {
        assert(t == n * ONE / a);
    } else {
        assert(t == n * ONE / a);
    }
    lemma_point_component(oc.x as int, d.x as int, a, n, t, rad);
    lemma_point_component(oc.y as int, d.y as int, a, n, t, rad);
    lemma_point_component(oc.z as int, d.z as int, a, n, t, rad);
}

/// Moving from `o` toward `o + dd` by a parameter `t` in `[0, 1)` stops
/// short of `o + dd`, on the side of `o`.
proof fn lemma_short_of_target(o: int, dd: int, t: int)
    requires
        0 <= t < ONE,
    ensures
        dd > 0 ==> o + fmul(dd, t) - (o + dd) < 0,
        dd == 0 ==> o + fmul(dd, t) - (o + dd) == 0,
        dd < 0 ==> o + fmul(dd, t) - (o + dd) >= 0,
{
    let one = ONE as int;
    let f = fmul(dd, t);
    assert(f * one <= dd * t < (f + 1) * one) by (nonlinear_arith)
        requires
            f == dd * t / one,
            one > 0,
    {
        assert(dd * t == one * (dd * t / one) + (dd * t) % one);
        assert(0 <= (dd * t) % one < one);
    }
    if dd > 0 {
        assert(f < dd) by (nonlinear_arith)
            requires
                f * one <= dd * t,
                dd > 0,
                0 <= t < one,
        ;
    } else if dd == 0 {
        assert(f == 0) by (nonlinear_arith)
            requires
                f * one <= dd * t < (f + 1) * one,
                dd == 0,
                one > 0,
        ;
    } else {
        assert(f >= dd) by (nonlinear_arith)
            requires
                dd * t < (f + 1) * one,
                dd < 0,
                0 <= t < one,
        ;
    }
}

/// One component of a unit vector keeps the sign of the component it comes
/// from, and is at least one step away from zero when `c * ONE > len`.
proof fn lemma_unit_sign(c: int, len: int)
    requires
        len > 0,
    ensures
        c > 0 ==> c * ONE / len >= 0,
        c == 0 ==> c * ONE / len == 0,
        c < 0 ==> c * ONE / len < 0,
        c * ONE > len ==> c * ONE / len >= 1,
{
    let one = ONE as int;
    let q = c * one / len;
    assert(q * len <= c * one < (q + 1) * len) by (nonlinear_arith)
        requires
            q == c * one / len,
            len > 0,
    {
        assert(c * one == len * (c * one / len) + (c * one) % len);
        assert(0 <= (c * one) % len < len);
    }
    if c > 0 {
        assert(q >= 0) by (nonlinear_arith)
            requires
                c * one < (q + 1) * len,
                c > 0,
                len > 0,
                one > 0,
        ;
    } else if c == 0 {
        assert(q == 0) by (nonlinear_arith)
            requires
                q * len <= 0 < (q + 1) * len,
                len > 0,
        ;
    } else {
        assert(q < 0) by (nonlinear_arith)
            requires
                q * len <= c * one,
                c < 0,
                len > 0,
                one > 0,
        ;
    }
    if c * one > len {
        assert(q >= 1) by (nonlinear_arith)
            requires
                c * one < (q + 1) * len,
                c * one > len,
                len > 0,
        ;
    }
}

/// If every component of `v` has the sign opposite to that of `d` (or is
/// zero where `d` is), and `v` is not zero, the unit vector of `v` points
/// against `d`.
proof fn lemma_against(d: Vec3, v: Vec3)
    requires
        !is_zero(v),
        d.x > 0 ==> v.x < 0,
        d.x == 0 ==> v.x == 0,
        d.x < 0 ==> v.x >= 0,
        d.y > 0 ==> v.y < 0,
        d.y == 0 ==> v.y == 0,
        d.y < 0 ==> v.y >= 0,
        d.z > 0 ==> v.z < 0,
        d.z == 0 ==> v.z == 0,
        d.z < 0 ==> v.z >= 0,
    ensures
        dot_exact(d, unit_of(v)) < 0,
{
    let n = dot_exact(v, v);
    let big = n * ONE_SQUARED;
    let len = fine_length_of(v);
    lemma_squares(v);
    lemma_unit_within(v);
    let u = unit_of(v);
    let one = ONE as int;
    let (cx, cy, cz) = (v.x * one, v.y * one, v.z * one);
    lemma_unit_sign(cx, len);
    lemma_unit_sign(cy, len);
    lemma_unit_sign(cz, len);
    assert((cx > 0 <==> v.x > 0) && (cx < 0 <==> v.x < 0) && (cx == 0 <==> v.x == 0))
        by (nonlinear_arith)
        requires
            cx == v.x * one,
            one > 0,
    ;
    assert((cy > 0 <==> v.y > 0) && (cy < 0 <==> v.y < 0) && (cy == 0 <==> v.y == 0))
        by (nonlinear_arith)
        requires
            cy == v.y * one,
            one > 0,
    ;
    assert((cz > 0 <==> v.z > 0) && (cz < 0 <==> v.z < 0) && (cz == 0 <==> v.z == 0))
        by (nonlinear_arith)
        requires
            cz == v.z * one,
            one > 0,
    ;
    // the largest component is at least one step from zero after scaling
    let ax: int = if v.x >= 0 { v.x as int } else { -v.x };
    let ay: int = if v.y >= 0 { v.y as int } else { -v.y };
    let az: int = if v.z >= 0 { v.z as int } else { -v.z };
    let m: int = if ax >= ay && ax >= az { ax } else if ay >= az { ay } else { az };
    assert(m > 0);
    assert(ax * ax == v.x * v.x) by (nonlinear_arith)
        requires
            ax == v.x || ax == -v.x,
    ;
    assert(ay * ay == v.y * v.y) by (nonlinear_arith)
        requires
            ay == v.y || ay == -v.y,
    ;
    assert(az * az == v.z * v.z) by (nonlinear_arith)
        requires
            az == v.z || az == -v.z,
    ;
    assert(n <= 3 * (m * m)) by (nonlinear_arith)
        requires
            n == v.x * v.x + v.y * v.y + v.z * v.z,
            0 <= ax <= m && 0 <= ay <= m && 0 <= az <= m,
            ax * ax == v.x * v.x,
            ay * ay == v.y * v.y,
            az * az == v.z * v.z,
    {
        lemma_square_monotone(ax, m);
        lemma_square_monotone(ay, m);
        lemma_square_monotone(az, m);
    }
    lemma_floor_sqrt_exists(big);
    let mm = m * one;
    assert(len < mm * one) by (nonlinear_arith)
        requires
            len * len <= big,
            big == n * ONE_SQUARED,
            n <= 3 * (m * m),
            mm == m * one,
            m > 0,
            len >= 0,
            one == 1_000_000,
            ONE_SQUARED == 1_000_000_000_000,
    {
        if len >= mm * one {
            lemma_square_monotone(mm * one, len);
        }
    }
    // each product d_i u_i is at most zero
    assert(d.x * u.x <= 0 && d.y * u.y <= 0 && d.z * u.z <= 0) by (nonlinear_arith)
        requires
            d.x > 0 ==> u.x < 0,
            d.x < 0 ==> u.x >= 0,
            d.y > 0 ==> u.y < 0,
            d.y < 0 ==> u.y >= 0,
            d.z > 0 ==> u.z < 0,
            d.z < 0 ==> u.z >= 0,
    ;
    if d.x > 0 {
        assert(d.x * u.x < 0) by (nonlinear_arith)
            requires
                d.x > 0,
                u.x < 0,
        ;
    } else if d.y > 0 {
        assert(d.y * u.y < 0) by (nonlinear_arith)
            requires
                d.y > 0,
                u.y < 0,
        ;
    } else if d.z > 0 {
        assert(d.z * u.z < 0) by (nonlinear_arith)
            requires
                d.z > 0,
                u.z < 0,
        ;
    } else {
        // all of v is at least zero; its largest component gives a negative term
        if m == ax {
            assert(cx * one > len);
            assert(d.x * u.x < 0) by (nonlinear_arith)
                requires
                    d.x < 0,
                    u.x >= 1,
            ;
        } else if m == ay {
            assert(cy * one > len);
            assert(d.y * u.y < 0) by (nonlinear_arith)
                requires
                    d.y < 0,
                    u.y >= 1,
            ;
        } else {
            assert(cz * one > len);
            assert(d.z * u.z < 0) by (nonlinear_arith)
                requires
                    d.z < 0,
                    u.z >= 1,
            ;
        }
    }
}

/// A number of magnitude at most `m`, divided by a positive integer, keeps
/// magnitude at most `m`.
proof fn lemma_div_shrinks(n: int, d: int, m: int)
    requires
        d >= 1,
        -m <= n <= m,
    ensures
        -m <= n / d <= m,
{
    assert(-m <= n / d <= m) by (nonlinear_arith)
        requires
            d >= 1,
            -m <= n <= m,
    {
        assert(n == d * (n / d) + n % d);
        assert(0 <= n % d < d);
    }
}

impl Sphere {
    pub fn new(center: Point3, radius: i64, material: Material) -> (r: Sphere)
        ensures
            r == (Sphere { center, radius, material }),
    {
        Sphere { center, radius, material }
    }

    /// Whether the sphere can take part in a scene: see `sphere_valid`.
    pub fn is_valid(&self) -> (r: bool)
        ensures
            r == sphere_valid(*self),
    {
        let w = WORLD;
        if self.radius == 0 || self.radius < -w || self.radius > w {
            return false;
        }
        let m = w - (if self.radius < 0 {
            -self.radius
        } else {
            self.radius
        }) - ROUNDING_SLACK;
        let c = self.center;
        -m <= c.x && c.x <= m && -m <= c.y && c.y <= m && -m <= c.z && c.z <= m
            && self.material.is_valid()
    }

    /// The coefficients `a`, `half_b` and the discriminant of the quadratic.
    fn quadratic(&self, r: &Ray) -> (res: (i128, i128, i128))
        requires
            sphere_valid(*self),
            traceable(*r),
        ensures
            res.0 == quad_a(*r),
            res.1 == half_b(*self, *r),
            res.2 == discriminant(*self, *r),
            1 <= res.0 <= 3_000_000_000_000_000_000,
            -6_000_000_000_000_000_000 <= res.1 <= 6_000_000_000_000_000_000,
            res.2 <= 72_000_000_000_000_000_000_000_000_000_000_000_000,
    {
        let oc = r.origin.sub(self.center);
        let d = r.direction;
        proof {
            lemma_dot_exact_within(d, d, 1_000_000_000, 1_000_000_000);
            lemma_dot_exact_within(oc, d, 2_000_000_000, 1_000_000_000);
            lemma_dot_exact_within(oc, oc, 2_000_000_000, 2_000_000_000);
            lemma_squares(d);
            lemma_squares(oc);
            if d.x != 0 {
                assert(d.x * d.x >= 1) by (nonlinear_arith)
                    requires
                        d.x != 0,
                ;
            } else if d.y != 0 {
                assert(d.y * d.y >= 1) by (nonlinear_arith)
                    requires
                        d.y != 0,
                ;
            } else {
                assert(d.z * d.z >= 1) by (nonlinear_arith)
                    requires
                        d.z != 0,
                ;
            }
            lemma_mul_within(self.radius as int, self.radius as int, 1_000_000_000, 1_000_000_000);
            assert(self.radius * self.radius >= 0) by (nonlinear_arith);
            assert(oc == sub_of(r.origin, self.center));
        }
        let a = dot_raw(&d, &d);
        let half_b = dot_raw(&oc, &d);
        let c = dot_raw(&oc, &oc) - self.radius as i128 * self.radius as i128;
        proof {
            lemma_mul_within(
                half_b as int,
                half_b as int,
                6_000_000_000_000_000_000,
                6_000_000_000_000_000_000,
            );
            assert(half_b * half_b >= 0) by (nonlinear_arith);
            lemma_mul_within(
                a as int,
                c as int,
                3_000_000_000_000_000_000,
                12_000_000_000_000_000_000,
            );
        }
        let disc = half_b * half_b - a * c;
        (a, half_b, disc)
    }

    /// Where `r` meets the sphere first with a parameter in `(t_min, t_max]`.
    pub fn hit(&self, r: &Ray, t_min: i64, t_max: i64) -> (res: Option<HitRecord>)
        requires
            sphere_valid(*self),
            traceable(*r),
        ensures
            res == sphere_hit(*self, *r, t_min as int, t_max as int),
            res matches Some(h) ==> t_min < h.t <= t_max && dot_exact(r.direction, h.normal) <= 0
                && within(h.p, WORLD as int) && within(h.normal, ONE as int),
    {
        let (a, half_b, disc) = self.quadratic(r);
        if disc < 0 {
            return None;
        }
        let sqrtd = sqrt_floor(disc);
        proof {
            if sqrtd > 9_000_000_000_000_000_000 {
                lemma_square_monotone(9_000_000_000_000_000_000, sqrtd as int);
            }
        }
        let one = ONE as i128;
        let mut root = div_floor((-half_b - sqrtd) * one, a);
        proof {
            lemma_div_shrinks(
                (-half_b - sqrtd) * one,
                a as int,
                15_000_000_000_000_000_000_000_000,
            );
        }
        if root <= t_min as i128 || (t_max as i128) < root {
            root = div_floor((-half_b + sqrtd) * one, a);
            proof {
                lemma_div_shrinks(
                    (-half_b + sqrtd) * one,
                    a as int,
                    15_000_000_000_000_000_000_000_000,
                );
            }
            if root <= t_min as i128 || (t_max as i128) < root {
                return None;
            }
        }
        let t = root as i64;
        proof {
            let m = 0x8000_0000_0000_0000int;
            lemma_mul_within(r.direction.x as int, root as int, 1_000_000_000, m);
            lemma_mul_within(r.direction.y as int, root as int, 1_000_000_000, m);
            lemma_mul_within(r.direction.z as int, root as int, 1_000_000_000, m);
        }
        let px = r.origin.x as i128 + div_floor(r.direction.x as i128 * root, one);
        let py = r.origin.y as i128 + div_floor(r.direction.y as i128 * root, one);
        let pz = r.origin.z as i128 + div_floor(r.direction.z as i128 * root, one);
        proof {
            lemma_root_point_near(*self, *r, root as int);
        }
        let p = Vec3::new(px as i64, py as i64, pz as i64);
        let outward = if p == self.center {
            r.direction.unit_vector().neg()
        } else {
            let u = p.sub(self.center).unit_vector();
            if self.radius > 0 {
                u
            } else {
                u.neg()
            }
        };
        let mut rec = HitRecord::new_empty();
        rec.t = t;
        rec.p = p;
        rec.material = self.material;
        rec.set_face_normal(r, outward);
        Some(rec)
    }
}

} // verus!
