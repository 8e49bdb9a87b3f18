//! Surface materials and how they scatter an incoming ray.
use vstd::prelude::*;

use crate::fixed::{
    ONE_SQUARED, fdiv, fixed_div, fixed_mul, fixed_sqrt, fmul, fsqrt, lemma_div_one_within,
    lemma_mul_within, ONE,
};
use crate::hittable::{record_valid, HitRecord};
use crate::random::Sampler;
use crate::ray::{traceable, Ray, WORLD};
use crate::vec3::{
    add_of, cos_between, dot_exact, dot_raw, is_zero, lemma_dot_exact_within, lemma_dot_zero,
    neg_of, reflect_of, refract_of, unit_of, within, Color, Vec3,
};

verus! {

/// The smallest refractive index a dielectric may have (0.01).
pub const MIN_INDEX: i64 = 10_000;

/// The largest refractive index a dielectric may have (100).
pub const MAX_INDEX: i64 = 100_000_000;

/// Every channel lies in `[0, 1]`.
pub open spec fn color_valid(c: Color) -> bool {
    0 <= c.x <= ONE && 0 <= c.y <= ONE && 0 <= c.z <= ONE
}

#[derive(Clone, Copy, Debug, PartialEq, Eq, Structural)]
pub enum Material {
    /// A placeholder that absorbs every ray.
    Void,
    Lambertian(Lambertian),
    Metal(Metal),
    Dielectric(Dielectric),
}

/// A diffuse surface.
#[derive(Clone, Copy, Debug, PartialEq, Eq, Structural)]
pub struct Lambertian {
    pub albedo: Color,
}

/// A specular surface; `fuzz` blurs the reflection.
#[derive(Clone, Copy, Debug, PartialEq, Eq, Structural)]
pub struct Metal {
    pub albedo: Color,
    pub fuzz: i64,
}

/// A clear refracting surface such as glass.
#[derive(Clone, Copy, Debug, PartialEq, Eq, Structural)]
pub struct Dielectric {
    pub index_of_refraction: i64,
}

/// The parameters of a material lie in the ranges it is defined for:
/// albedos in `[0, 1]`, a fuzz in `[0, 1]`, a refractive index in
/// `[MIN_INDEX, MAX_INDEX]`.
pub open spec fn material_valid(m: Material) -> bool {
    match m {
        Material::Void => true,
        Material::Lambertian(l) => color_valid(l.albedo),
        Material::Metal(m) => color_valid(m.albedo) && 0 <= m.fuzz <= ONE,
        Material::Dielectric(d) => MIN_INDEX <= d.index_of_refraction <= MAX_INDEX,
    }
}

/// What `Material::scatter` may return for `m`, over every draw of chance.
pub open spec fn scatter_outcome(m: Material, r_in: Ray, rec: HitRecord, r: Option<(Color, Ray)>) -> bool {
    match m {
        Material::Void => r is None,
        Material::Lambertian(l) => exists|q: Vec3|
            in_unit_ball(q) && r == Some(lambertian_scatter(l, rec, q)),
        Material::Metal(mm) => exists|q: Vec3| in_unit_ball(q) && r == metal_scatter(mm, r_in, rec, q),
        Material::Dielectric(d) => exists|chance: int|
            0 <= chance <= ONE && r == Some(dielectric_scatter(d, r_in, rec, chance)),
    }
}

/// Whether every channel lies in `[0, 1]`.
pub fn color_in_range(c: Color) -> (r: bool)
    ensures
        r == color_valid(c),
{
    0 <= c.x && c.x <= ONE && 0 <= c.y && c.y <= ONE && 0 <= c.z && c.z <= ONE
}

impl Material {
    /// Whether the parameters lie in the ranges the material is defined for.
    pub fn is_valid(&self) -> (r: bool)
        ensures
            r == material_valid(*self),
    {
        match self {
            Material::Void => true,
            Material::Lambertian(l) => color_in_range(l.albedo),
            Material::Metal(m) => color_in_range(m.albedo) && 0 <= m.fuzz && m.fuzz <= ONE,
            Material::Dielectric(d) => MIN_INDEX <= d.index_of_refraction
                && d.index_of_refraction <= MAX_INDEX,
        }
    }

    /// How a ray that hit a surface of this material goes on: an attenuation
    /// and the scattered ray, or `None` when the ray is absorbed.
    pub fn scatter(&self, r_in: &Ray, rec: &HitRecord, rng: &mut Sampler) -> (r: Option<(Color, Ray)>)
        requires
            material_valid(*self),
            traceable(*r_in),
            record_valid(*rec),
        ensures
            scatter_outcome(*self, *r_in, *rec, r),
            r matches Some(s) ==> bounded_ray(s.1) && color_valid(s.0),
    {
        match self {
            Material::Void => None,
            Material::Lambertian(l) => l.scatter(r_in, rec, rng),
            Material::Metal(m) => m.scatter(r_in, rec, rng),
            Material::Dielectric(d) => d.scatter(r_in, rec, rng),
        }
    }
}

/// A point inside the open unit ball.
pub open spec fn in_unit_ball(q: Vec3) -> bool {
    within(q, ONE as int) && dot_exact(q, q) < ONE_SQUARED
}

/// How many candidates the rejection sampler draws before it settles on the
/// center of the ball; each is accepted with probability above one half.
pub const SAMPLE_ATTEMPTS: u32 = 64;

/// Every component lies in `[-1, 1]`: a candidate drawn from the cube.
pub open spec fn in_cube(q: Vec3) -> bool {
    within(q, ONE as int)
}

/// The first of `cands` inside the unit ball, or the center when none is.
pub open spec fn first_in_ball_of(cands: Seq<Vec3>) -> Vec3
    decreases cands.len(),
{
    if cands.len() == 0 {
        Vec3 { x: 0, y: 0, z: 0 }
    } else if in_unit_ball(cands[0]) {
        cands[0]
    } else {
        first_in_ball_of(cands.drop_first())
    }
}

/// The first candidate inside the unit ball, or the center when none is.
pub fn first_in_ball(cands: &[Vec3]) -> (r: Vec3)
    requires
        forall|k: int| 0 <= k < cands@.len() ==> in_cube(#[trigger] cands@[k]),
    ensures
        r == first_in_ball_of(cands@),
{
    let mut i: usize = 0;
    proof {
        assert(cands@.subrange(0, cands@.len() as int) =~= cands@);
    }
    while i < cands.len()
        invariant
            i <= cands@.len(),
            forall|k: int| 0 <= k < cands@.len() ==> in_cube(#[trigger] cands@[k]),
            first_in_ball_of(cands@) == first_in_ball_of(
                cands@.subrange(i as int, cands@.len() as int),
            ),
        decreases cands.len() - i,
    {
        let p = cands[i];
        let ghost rest = cands@.subrange(i as int, cands@.len() as int);
        proof {
            assert(rest[0] == p);
            assert(rest.drop_first() =~= cands@.subrange(i + 1, cands@.len() as int));
        }
        if dot_raw(&p, &p) < ONE_SQUARED {
            return p;
        }
        i += 1;
    }
    proof {
        assert(cands@.subrange(i as int, cands@.len() as int).len() == 0);
    }
    Vec3::new(0, 0, 0)
}

/// A point drawn from the unit ball by rejection: candidates are drawn from
/// the cube `[-1, 1]^3`, up to `SAMPLE_ATTEMPTS` of them, until one falls
/// inside the ball; the result is the first that does.
pub fn random_in_unit_sphere(rng: &mut Sampler) -> (r: Vec3)
    ensures
        in_unit_ball(r),
        exists|cands: Seq<Vec3>|
            (forall|k: int| 0 <= k < cands.len() ==> in_cube(#[trigger] cands[k])) && (
            cands.len() == SAMPLE_ATTEMPTS || (cands.len() > 0 && in_unit_ball(cands.last())))
                && r == #[trigger] first_in_ball_of(cands),
{
    let mut cands: Vec<Vec3> = Vec::new();
    let mut attempt: u32 = 0;
    while attempt < SAMPLE_ATTEMPTS
        invariant
            cands@.len() == attempt,
            attempt <= SAMPLE_ATTEMPTS,
            forall|k: int| 0 <= k < cands@.len() ==> in_cube(#[trigger] cands@[k]),
            forall|k: int| 0 <= k < cands@.len() ==> !in_unit_ball(#[trigger] cands@[k]),
        decreases SAMPLE_ATTEMPTS - attempt,
    {
        let p = Vec3::random_range(rng, -ONE, ONE);
        cands.push(p);
        if dot_raw(&p, &p) < ONE_SQUARED {
            let r = first_in_ball(cands.as_slice());
            proof {
                lemma_first_in_ball_last(cands@);
            }
            return r;
        }
        attempt += 1;
    }
    let r = first_in_ball(cands.as_slice());
    proof {
        lemma_first_in_ball_none(cands@);
    }
    r
}

proof fn lemma_first_in_ball_none(cands: Seq<Vec3>)
    requires
        forall|k: int| 0 <= k < cands.len() ==> !in_unit_ball(#[trigger] cands[k]),
    ensures
        first_in_ball_of(cands) == (Vec3 { x: 0, y: 0, z: 0 }),
    decreases cands.len(),
{
    if cands.len() > 0 {
        assert(!in_unit_ball(cands[0]));
        assert forall|k: int| 0 <= k < cands.drop_first().len() implies !in_unit_ball(
            #[trigger] cands.drop_first()[k],
        ) by {
            assert(cands.drop_first()[k] == cands[k + 1]);
        }
        lemma_first_in_ball_none(cands.drop_first());
    }
}

proof fn lemma_first_in_ball_last(cands: Seq<Vec3>)
    requires
        cands.len() > 0,
        in_unit_ball(cands.last()),
        forall|k: int| 0 <= k < cands.len() - 1 ==> !in_unit_ball(#[trigger] cands[k]),
    ensures
        first_in_ball_of(cands) == cands.last(),
    decreases cands.len(),
{
    if cands.len() > 1 {
        assert(!in_unit_ball(cands[0]));
        let rest = cands.drop_first();
        assert(rest.last() == cands.last());
        assert forall|k: int| 0 <= k < rest.len() - 1 implies !in_unit_ball(#[trigger] rest[k]) by {
            assert(rest[k] == cands[k + 1]);
        }
        lemma_first_in_ball_last(rest);
    }
}

/// The diffuse bounce toward `normal + q`; where that vanishes, along the
/// normal itself.
pub open spec fn lambertian_scatter(l: Lambertian, rec: HitRecord, q: Vec3) -> (Color, Ray) {
    let dir = add_of(rec.normal, q);
    (l.albedo, Ray { origin: rec.p, direction: if is_zero(dir) { rec.normal } else { dir } })
}

/// The mirror image of the incoming unit direction, moved by `fuzz * q`.
pub open spec fn metal_direction(m: Metal, r_in: Ray, rec: HitRecord, q: Vec3) -> Vec3 {
    let reflected = reflect_of(unit_of(r_in.direction), rec.normal);
    Vec3 {
        x: (reflected.x + fmul(q.x as int, m.fuzz as int)) as i64,
        y: (reflected.y + fmul(q.y as int, m.fuzz as int)) as i64,
        z: (reflected.z + fmul(q.z as int, m.fuzz as int)) as i64,
    }
}

/// The mirror bounce off the normal, moved by `fuzz * q`; absorbed unless
/// it leaves the surface.
pub open spec fn metal_scatter(m: Metal, r_in: Ray, rec: HitRecord, q: Vec3) -> Option<(Color, Ray)> {
    let dir = metal_direction(m, r_in, rec, q);
    if dot_exact(dir, rec.normal) > 0 {
        Some((m.albedo, Ray { origin: rec.p, direction: dir }))
    } else {
        None
    }
}

/// A ray that starts inside the world's range with a direction in it; only a
/// direction that is not zero can then be traced.
pub open spec fn bounded_ray(r: Ray) -> bool {
    within(r.origin, WORLD as int) && within(r.direction, WORLD as int)
}

impl Lambertian {
    pub fn new(albedo: Color) -> (r: Lambertian)
        ensures
            r.albedo == albedo,
    {
        Lambertian { albedo }
    }

    /// The bounce toward `normal + q`, for a point `q` of the unit ball.
    pub fn scatter_toward(&self, rec: &HitRecord, q: Vec3) -> (r: (Color, Ray))
        requires
            record_valid(*rec),
            in_unit_ball(q),
        ensures
            r == lambertian_scatter(*self, *rec, q),
            bounded_ray(r.1),
    {
        let sum = rec.normal.add(q);
        proof {
            assert(sum == add_of(rec.normal, q));
        }
        let mut scatter_dir = sum;
        if scatter_dir.near_zero() {
            scatter_dir = rec.normal;
        }
        (self.albedo, Ray::new(rec.p, scatter_dir))
    }

    /// A diffuse bounce: always scatters, with the albedo as attenuation.
    pub fn scatter(&self, _r_in: &Ray, rec: &HitRecord, rng: &mut Sampler) -> (r: Option<(Color, Ray)>)
        requires
            record_valid(*rec),
        ensures
            exists|q: Vec3| in_unit_ball(q) && r == Some(lambertian_scatter(*self, *rec, q)),
            r matches Some(s) ==> bounded_ray(s.1),
    {
        let q = random_in_unit_sphere(rng);
        Some(self.scatter_toward(rec, q))
    }
}

impl Metal {
    pub fn new(albedo: Color, fuzz: i64) -> (r: Metal)
        ensures
            r.albedo == albedo,
            r.fuzz == fuzz,
    {
        Metal { albedo, fuzz }
    }

    /// The mirror bounce moved by `fuzz * q`, for a point `q` of the unit
    /// ball; `None` when the result does not leave the surface.
    pub fn scatter_toward(&self, r_in: &Ray, rec: &HitRecord, q: Vec3) -> (r: Option<(Color, Ray)>)
        requires
            0 <= self.fuzz <= ONE,
            traceable(*r_in),
            record_valid(*rec),
            in_unit_ball(q),
        ensures
            r == metal_scatter(*self, *r_in, *rec, q),
            r is None <==> dot_exact(metal_direction(*self, *r_in, *rec, q), rec.normal) <= 0,
            r matches Some(s) ==> bounded_ray(s.1) && !is_zero(s.1.direction),
    {
        let reflected = r_in.direction.unit_vector().reflect(rec.normal);
        proof {
            lemma_mul_within(q.x as int, self.fuzz as int, ONE as int, ONE as int);
            lemma_mul_within(q.y as int, self.fuzz as int, ONE as int, ONE as int);
            lemma_mul_within(q.z as int, self.fuzz as int, ONE as int, ONE as int);
            lemma_div_one_within(q.x * self.fuzz, ONE as int);
            lemma_div_one_within(q.y * self.fuzz, ONE as int);
            lemma_div_one_within(q.z * self.fuzz, ONE as int);
        }
        let fuzzed = q.scale(self.fuzz);
        let direction = reflected.add(fuzzed);
        proof {
            assert(direction == metal_direction(*self, *r_in, *rec, q));
        }
        if dot_raw(&direction, &rec.normal) > 0 {
            proof {
                assert(within(direction, WORLD as int));
                if is_zero(direction) {
                    lemma_dot_zero(direction, rec.normal);
                }
            }
            Some((self.albedo, Ray::new(rec.p, direction)))
        } else {
            None
        }
    }

    /// A mirror bounce blurred by the fuzz, with the albedo as attenuation.
    pub fn scatter(&self, r_in: &Ray, rec: &HitRecord, rng: &mut Sampler) -> (r: Option<(Color, Ray)>)
        requires
            0 <= self.fuzz <= ONE,
            traceable(*r_in),
            record_valid(*rec),
        ensures
            exists|q: Vec3| in_unit_ball(q) && r == metal_scatter(*self, *r_in, *rec, q),
            r matches Some(s) ==> bounded_ray(s.1),
    {
        let q = random_in_unit_sphere(rng);
        self.scatter_toward(r_in, rec, q)
    }
}

/// `x^5` for a fixed-point `x`, each product rounded down.
pub open spec fn pow5(x: int) -> int {
    fmul(fmul(fmul(fmul(x, x), x), x), x)
}

/// Schlick's approximation of the reflectance at a boundary with index ratio
/// `ratio`, seen at an angle of cosine `cosine`:
/// `r0 + (1 - r0) (1 - cosine)^5` with `r0 = ((1 - ratio) / (1 + ratio))^2`.
pub open spec fn reflectance_of(cosine: int, ratio: int) -> int {
    let r0 = fdiv(ONE - ratio, ONE + ratio);
    let r0sq = fmul(r0, r0);
    r0sq + fmul(ONE - r0sq, pow5(ONE - cosine))
}

/// The ratio of refractive indices across the surface: `1 / index` entering
/// through the front face, `index` leaving through the back.
pub open spec fn refraction_ratio(d: Dielectric, front_face: bool) -> int {
    if front_face {
        fdiv(ONE as int, d.index_of_refraction as int)
    } else {
        d.index_of_refraction as int
    }
}

/// Whether the glass reflects: always under total internal reflection
/// (`ratio * sin > 1`), otherwise when the reflectance exceeds `chance`.
pub open spec fn dielectric_reflects(d: Dielectric, r_in: Ray, rec: HitRecord, chance: int) -> bool {
    let ratio = refraction_ratio(d, rec.front_face);
    let u = unit_of(r_in.direction);
    let cos_theta = cos_between(rec.normal, u);
    let sin_theta = fsqrt(ONE - fmul(cos_theta, cos_theta));
    fmul(ratio, sin_theta) > ONE || reflectance_of(cos_theta, ratio) > chance
}

/// The glass bounce: white attenuation, and the reflected or the refracted
/// unit direction.
pub open spec fn dielectric_scatter(d: Dielectric, r_in: Ray, rec: HitRecord, chance: int) -> (
    Color,
    Ray,
) {
    let u = unit_of(r_in.direction);
    let dir = if dielectric_reflects(d, r_in, rec, chance) {
        reflect_of(u, rec.normal)
    } else {
        refract_of(u, rec.normal, refraction_ratio(d, rec.front_face))
    };
    (Vec3 { x: ONE, y: ONE, z: ONE }, Ray { origin: rec.p, direction: dir })
}

impl Dielectric {
    pub fn new(index_of_refraction: i64) -> (r: Dielectric)
        ensures
            r.index_of_refraction == index_of_refraction,
    {
        Dielectric { index_of_refraction }
    }

    /// Schlick's approximation of the reflectance.
    pub fn reflectance(cosine: i64, ref_index: i64) -> (r: i64)
        requires
            0 <= cosine <= ONE,
            0 <= ref_index <= MAX_INDEX,
        ensures
            r == reflectance_of(cosine as int, ref_index as int),
    {
        let r0 = fixed_div(ONE - ref_index, ONE + ref_index);
        proof {
            let a = ONE - ref_index;
            let b = ONE + ref_index;
            assert(-(ONE as int) <= r0 <= ONE) by (nonlinear_arith)
                requires
                    b > 0,
                    -b <= a <= b,
                    r0 == a * (ONE as int) / b,
                    ONE > 0,
            {
                assert(a * (ONE as int) == b * r0 + (a * (ONE as int)) % b);
                assert(0 <= (a * (ONE as int)) % b < b);
            }
            lemma_mul_within(r0 as int, r0 as int, ONE as int, ONE as int);
            lemma_div_one_within(r0 * r0, ONE as int);
        }
        let r0sq = fixed_mul(r0, r0);
        let x = ONE - cosine;
        let p = pow5_fixed(x);
        proof {
            lemma_mul_within(ONE - r0sq, p as int, 2 * ONE as int, ONE as int);
            lemma_div_one_within((ONE - r0sq) * p, 2 * ONE as int);
        }
        r0sq + fixed_mul(ONE - r0sq, p)
    }

    /// The glass bounce, where `chance` in `[0, 1]` decides between
    /// reflection and refraction when both are possible.
    pub fn scatter_with(&self, r_in: &Ray, rec: &HitRecord, chance: i64) -> (r: (Color, Ray))
        requires
            MIN_INDEX <= self.index_of_refraction <= MAX_INDEX,
            traceable(*r_in),
            record_valid(*rec),
        ensures
            r == dielectric_scatter(*self, *r_in, *rec, chance as int),
            bounded_ray(r.1),
    {
        let attenuation = Vec3::new(ONE, ONE, ONE);
        let refraction_ratio = if rec.front_face {
            fixed_div(ONE, self.index_of_refraction)
        } else {
            self.index_of_refraction
        };
        proof {
            let i = self.index_of_refraction as int;
            let one = ONE as int;
            if rec.front_face {
                assert(0 <= one * one / i <= 100 * one) by (nonlinear_arith)
                    requires
                        MIN_INDEX <= i,
                        one == ONE,
                        MIN_INDEX == 10_000,
                        ONE == 1_000_000,
                ;
            }
        }
        let unit_dir = r_in.direction.unit_vector();
        let d = rec.normal.dot(unit_dir.neg());
        proof {
            lemma_dot_exact_within(rec.normal, neg_of(unit_dir), 1_000_000, 1_000_000);
            lemma_div_one_within(dot_exact(rec.normal, neg_of(unit_dir)), 3_000_000);
        }
        let cos_theta = if d < 0 {
            0
        } else if d > ONE {
            ONE
        } else {
            d
        };
        proof {
            lemma_mul_within(cos_theta as int, cos_theta as int, ONE as int, ONE as int);
            lemma_div_one_within(cos_theta * cos_theta, ONE as int);
            assert(cos_theta * cos_theta >= 0) by (nonlinear_arith);
        }
        let sin_theta = fixed_sqrt(ONE - fixed_mul(cos_theta, cos_theta));
        proof {
            lemma_mul_within(refraction_ratio as int, sin_theta as int, 100_000_000, 1_000_000_001);
        }
        let cannot_refract = fixed_mul(refraction_ratio, sin_theta) > ONE;
        let direction = if cannot_refract
            || Dielectric::reflectance(cos_theta, refraction_ratio) > chance {
            unit_dir.reflect(rec.normal)
        } else {
            unit_dir.refract(rec.normal, refraction_ratio)
        };
        (attenuation, Ray::new(rec.p, direction))
    }

    /// A glass bounce: always scatters, with white attenuation.
    pub fn scatter(&self, r_in: &Ray, rec: &HitRecord, rng: &mut Sampler) -> (r: Option<(Color, Ray)>)
        requires
            MIN_INDEX <= self.index_of_refraction <= MAX_INDEX,
            traceable(*r_in),
            record_valid(*rec),
        ensures
            exists|chance: int|
                0 <= chance <= ONE && r == Some(dielectric_scatter(*self, *r_in, *rec, chance)),
            r matches Some(s) ==> bounded_ray(s.1),
    {
        let chance = rng.unit();
        Some(self.scatter_with(r_in, rec, chance))
    }
}

/// `x^5` for a fixed-point `x` in `[0, 1]`.
fn pow5_fixed(x: i64) -> (r: i64)
    requires
        0 <= x <= ONE,
    ensures
        r == pow5(x as int),
        0 <= r <= ONE,
{
    let mut p = x;
    let mut i: u32 = 1;
    while i < 5
        invariant
            1 <= i <= 5,
            0 <= p <= ONE,
            0 <= x <= ONE,
            i == 1 ==> p == x,
            i == 2 ==> p == fmul(x as int, x as int),
            i == 3 ==> p == fmul(fmul(x as int, x as int), x as int),
            i == 4 ==> p == fmul(fmul(fmul(x as int, x as int), x as int), x as int),
            i == 5 ==> p == pow5(x as int),
        decreases 5 - i,
    {
        proof {
            assert(0 <= p * x <= ONE * ONE) by (nonlinear_arith)
                requires
                    0 <= p <= ONE,
                    0 <= x <= ONE,
            ;
            lemma_div_one_within(p * x, ONE as int);
            assert(p * x / (ONE as int) >= 0) by (nonlinear_arith)
                requires
                    p * x >= 0,
                    ONE > 0,
            ;
        }
        p = fixed_mul(p, x);
        i += 1;
    }
    p
}

} // verus!
