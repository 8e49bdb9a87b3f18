//! The recursive radiance integrator, and per-pixel sampling and tone mapping.
use vstd::prelude::*;

use crate::camera::{camera_valid, ray_through, Camera};
use crate::fixed::{
    ONE_SQUARED, fixed_mul, fmul, fsqrt, lemma_floor_sqrt_unique, lemma_mul_within,
    lemma_square_monotone, sqrt_floor, ONE,
};
use crate::hittable::{hit_world, scene_valid, world_hit};
use crate::material::{bounded_ray, color_valid, scatter_outcome};
use crate::random::Sampler;
use crate::ray::{traceable, Ray, WORLD};
use crate::sphere::Sphere;
use crate::vec3::{dot_exact, is_zero, mul_of, unit_of, within, Color, Vec3};

verus! {

/// The smallest ray parameter at which a bounce may hit (0.001): it keeps a
/// scattered ray from hitting the surface it leaves.
pub const T_MIN: i64 = 1_000;

/// The largest ray parameter: no upper end to the search.
pub const T_INFINITY: i64 = i64::MAX;

/// How far up `d` points, from 0 (straight down) to 1 (straight up):
/// `(unit(d).y + 1) / 2`.
pub open spec fn sky_blend(d: Vec3) -> int {
    (unit_of(d).y + ONE) / 2
}

/// The channel `c` of the zenith color, blended with white by `t`:
/// `(1 - t) + c t`.
pub open spec fn sky_channel(c: int, t: int) -> int {
    (ONE - t) + fmul(c, t)
}

/// The sky seen along `d`: white at the horizon below, light blue
/// `(0.5, 0.7, 1.0)` at the zenith, blended linearly in between.
pub open spec fn sky_color(d: Vec3) -> Color {
    let t = sky_blend(d);
    Vec3 {
        x: sky_channel(500_000, t) as i64,
        y: sky_channel(700_000, t) as i64,
        z: sky_channel(1_000_000, t) as i64,
    }
}

pub open spec fn black() -> Color {
    Vec3 { x: 0, y: 0, z: 0 }
}

proof fn lemma_sky_channel(c: int, t: int)
    requires
        0 <= c <= ONE,
        0 <= t <= ONE,
    ensures
        0 <= sky_channel(c, t) <= ONE,
{
    let one = ONE as int;
    assert(0 <= c * t <= one * t) by (nonlinear_arith)
        requires
            0 <= c <= one,
            0 <= t,
    ;
    assert(c * t / one <= t) by (nonlinear_arith)
        requires
            0 <= c * t <= one * t,
            one > 0,
    {
        assert(c * t == one * (c * t / one) + (c * t) % one);
    }
    assert(c * t / one >= 0) by (nonlinear_arith)
        requires
            c * t >= 0,
            one > 0,
    ;
}

/// The sky color along the non-zero direction `d`.
pub fn sky(d: Vec3) -> (r: Color)
    requires
        within(d, WORLD as int),
        !is_zero(d),
    ensures
        r == sky_color(d),
        color_valid(r),
{
    let u = d.unit_vector();
    let t = (u.y + ONE) / 2;
    proof {
        lemma_sky_channel(500_000, t as int);
        lemma_sky_channel(700_000, t as int);
        lemma_sky_channel(1_000_000, t as int);
    }
    Vec3::new(
        (ONE - t) + fixed_mul(500_000, t),
        (ONE - t) + fixed_mul(700_000, t),
        (ONE - t) + fixed_mul(ONE, t),
    )
}

/// What `ray_color` may return for `r` with `depth` bounces left, over
/// every draw of chance: black once the depth is used up or for a zero
/// direction; the sky on a miss; on a hit, black when the surface absorbs,
/// else the attenuation times a radiance the scattered ray may bring back
/// with one bounce less.
pub open spec fn radiance_outcome(world: Seq<Sphere>, r: Ray, depth: int, c: Color) -> bool
    decreases depth,
{
    if depth <= 0 || is_zero(r.direction) {
        c == black()
    } else {
        match world_hit(world, r, T_MIN as int, T_INFINITY as int) {
            None => c == sky_color(r.direction),
            Some(h) => exists|s: Option<(Color, Ray)>|
                #[trigger] scatter_outcome(h.material, r, h, s) && match s {
                    None => c == black(),
                    Some(sc) => exists|c2: Color|
                        radiance_outcome(world, sc.1, depth - 1, c2) && c == #[trigger] mul_of(
                            sc.0,
                            c2,
                        ),
                },
        }
    }
}

/// A ray that misses everything looks at the sky: with no spheres every ray
/// misses, and the sky straight up (any `y > 0`) is the zenith color
/// `(0.5, 0.7, 1.0)` while straight down (any `y < 0`) it is white.
pub proof fn lemma_vertical_sky(r: Ray, y: i64)
    requires
        r.direction == (Vec3 { x: 0, y, z: 0 }),
        y != 0,
    ensures
        world_hit(Seq::<Sphere>::empty(), r, T_MIN as int, T_INFINITY as int) is None,
        y > 0 ==> sky_color(r.direction) == (Vec3 { x: 500_000, y: 700_000, z: 1_000_000 }),
        y < 0 ==> sky_color(r.direction) == (Vec3 { x: ONE, y: ONE, z: ONE }),
{
    let d = r.direction;
    let n = dot_exact(d, d);
    let m: int = if y > 0 { y as int } else { -y };
    assert(n == m * m) by (nonlinear_arith)
        requires
            n == 0 * 0 + y * y + 0 * 0,
            m == y || m == -y,
    ;
    let one = ONE as int;
    let big = n * ONE_SQUARED;
    let mm = m * one;
    assert(mm * mm <= big < (mm + 1) * (mm + 1)) by (nonlinear_arith)
        requires
            n == m * m,
            m > 0,
            mm == m * one,
            big == n * ONE_SQUARED,
            one == 1_000_000,
            ONE_SQUARED == 1_000_000_000_000,
    ;
    lemma_floor_sqrt_unique(big, mm);
    assert(0 * one * one / mm == 0) by (nonlinear_arith)
        requires
            mm > 0,
    ;
    if y > 0 {
        assert(y * one * one == mm * one) by (nonlinear_arith)
            requires
                m == y,
                mm == m * one,
        ;
        vstd::arithmetic::div_mod::lemma_div_multiples_vanish(one, mm);
    } else {
        assert(y * one * one == mm * (-one)) by (nonlinear_arith)
            requires
                m == -y,
                mm == m * one,
        ;
        vstd::arithmetic::div_mod::lemma_div_multiples_vanish(-one, mm);
    }
    let u = unit_of(d);
    assert(u.y == if y > 0 { one } else { -one });
    if y > 0 {
        assert(sky_blend(d) == one);
        assert(fmul(500_000, one) == 500_000) by (nonlinear_arith)
            requires
                one == 1_000_000,
        ;
        assert(fmul(700_000, one) == 700_000) by (nonlinear_arith)
            requires
                one == 1_000_000,
        ;
        assert(fmul(1_000_000, one) == 1_000_000) by (nonlinear_arith)
            requires
                one == 1_000_000,
        ;
    } else {
        assert(sky_blend(d) == 0);
    }
}

/// The component-wise product of two colors in `[0, 1]` stays in `[0, 1]`
/// and exceeds neither factor.
pub proof fn lemma_attenuation_bounded(a: Color, c: Color)
    requires
        color_valid(a),
        color_valid(c),
    ensures
        color_valid(mul_of(a, c)),
        mul_of(a, c).x <= a.x && mul_of(a, c).x <= c.x,
        mul_of(a, c).y <= a.y && mul_of(a, c).y <= c.y,
        mul_of(a, c).z <= a.z && mul_of(a, c).z <= c.z,
{
    lemma_product_channel(a.x as int, c.x as int);
    lemma_product_channel(a.y as int, c.y as int);
    lemma_product_channel(a.z as int, c.z as int);
}

proof fn lemma_product_channel(a: int, c: int)
    requires
        0 <= a <= ONE,
        0 <= c <= ONE,
    ensures
        0 <= fmul(a, c) <= a,
        fmul(a, c) <= c,
{
    let one = ONE as int;
    assert(0 <= a * c <= one * a && a * c <= one * c) by (nonlinear_arith)
        requires
            0 <= a <= one,
            0 <= c <= one,
    ;
    assert(0 <= a * c / one <= a && a * c / one <= c) by (nonlinear_arith)
        requires
            0 <= a * c <= one * a,
            a * c <= one * c,
            one > 0,
    {
        assert(a * c == one * (a * c / one) + (a * c) % one);
        assert(0 <= (a * c) % one < one);
    }
}

/// The radiance carried back along `r`: black once `depth` is used up,
/// the sky on a miss, and on a hit the attenuation of the scattered ray
/// times the radiance it brings back, or black when the surface absorbs.
/// A ray whose direction is zero cannot be traced and carries no light.
pub fn ray_color(r: &Ray, world: &[Sphere], depth: isize, rng: &mut Sampler) -> (res: Color)
    requires
        scene_valid(world@),
        bounded_ray(*r),
    ensures
        color_valid(res),
        depth <= 0 ==> res == black(),
        depth > 0 && is_zero(r.direction) ==> res == black(),
        depth > 0 && traceable(*r) && world_hit(world@, *r, T_MIN as int, T_INFINITY as int)
            is None ==> res == sky_color(r.direction),
        radiance_outcome(world@, *r, depth as int, res),
    decreases depth,
{
    if depth <= 0 {
        return Vec3::new(0, 0, 0);
    }
    if r.direction.near_zero() {
        return Vec3::new(0, 0, 0);
    }
    let hit = hit_world(world, r, T_MIN, T_INFINITY);
    match hit {
        Some(record) => {
            let scattered = record.material.scatter(r, &record, rng);
            match scattered {
                Some((albedo, scattered_ray)) => {
                    let target_color = ray_color(&scattered_ray, world, depth - 1, rng);
                    proof {
                        lemma_attenuation_bounded(albedo, target_color);
                    }
                    let res = albedo.mul(target_color);
                    proof {
                        assert(scatter_outcome(record.material, *r, record, scattered));
                        let d1 = depth as int - 1;
                        assert(radiance_outcome(world@, scattered_ray, d1, target_color));
                        assert(scattered == Some((albedo, scattered_ray)));
                        assert(res == mul_of(albedo, target_color));
                        assert(exists|c2: Color|
                            radiance_outcome(world@, scattered_ray, d1, c2) && res
                                == #[trigger] mul_of(albedo, c2));
                        assert(world_hit(world@, *r, T_MIN as int, T_INFINITY as int) == Some(
                            record,
                        ));
                        assert(exists|so: Option<(Color, Ray)>|
                            #[trigger] scatter_outcome(record.material, *r, record, so) && match so {
                                None => res == black(),
                                Some(sc) => exists|c2: Color|
                                    radiance_outcome(world@, sc.1, d1, c2) && res
                                        == #[trigger] mul_of(sc.0, c2),
                            }) by {
                            assert(scatter_outcome(record.material, *r, record, scattered));
                        }
                        reveal_with_fuel(radiance_outcome, 1);
                        assert(radiance_outcome(world@, *r, depth as int, res));
                    }
                    res
                },
                None => {
                    let res = Vec3::new(0, 0, 0);
                    proof {
                        assert(scatter_outcome(record.material, *r, record, scattered));
                        assert(radiance_outcome(world@, *r, depth as int, res));
                    }
                    res
                },
            }
        },
        None => sky(r.direction),
    }
}

/// One output pixel: three channels in `[0, 255]`.
#[derive(Clone, Copy, Debug, PartialEq, Eq, Structural)]
pub struct Pixel {
    pub r: u8,
    pub g: u8,
    pub b: u8,
}

pub open spec fn clamp_of(x: int, min: int, max: int) -> int {
    if x < min {
        min
    } else if x > max {
        max
    } else {
        x
    }
}

/// The largest gamma-corrected value written out (0.999).
pub const GAMMA_CAP: i64 = 999_000;

/// One output channel from the sum of `samples` linear values: the mean,
/// gamma-corrected by a square root, held to `[0, 0.999]` and scaled by 256.
pub open spec fn tone(sum: int, samples: int) -> int {
    256 * clamp_of(fsqrt(sum / samples), 0, GAMMA_CAP as int) / (ONE as int)
}

pub open spec fn tone_pixel(sum: Color, samples: int) -> Pixel {
    Pixel {
        r: tone(sum.x as int, samples) as u8,
        g: tone(sum.y as int, samples) as u8,
        b: tone(sum.z as int, samples) as u8,
    }
}

/// `x` held to `[min, max]`.
pub fn clamp(x: i64, min: i64, max: i64) -> (r: i64)
    ensures
        r == clamp_of(x as int, min as int, max as int),
{
    if x < min {
        min
    } else if x > max {
        max
    } else {
        x
    }
}

/// One channel of `generate_color`.
fn tone_channel(sum: i64, samples: usize) -> (r: u8)
    requires
        sum >= 0,
        samples >= 1,
    ensures
        r == tone(sum as int, samples as int),
{
    let mean = sum as u64 / samples as u64;
    proof {
        assert(mean <= sum) by (nonlinear_arith)
            requires
                mean == sum as int / samples as int,
                sum >= 0,
                samples >= 1,
        {
            assert(sum as int == samples * (sum as int / samples as int) + sum as int % samples as int);
        }
    }
    proof {
        lemma_mul_within(mean as int, ONE as int, i64::MAX as int, ONE as int);
    }
    let g = sqrt_floor(mean as i128 * ONE as i128);
    proof {
        if g > 4_000_000_000_000 {
            lemma_square_monotone(4_000_000_000_000, g as int);
        }
    }
    let c = clamp(g as i64, 0, GAMMA_CAP);
    let v = 256 * c / ONE;
    proof {
        assert(0 <= 256 * c / (ONE as int) <= 255) by (nonlinear_arith)
            requires
                0 <= c <= 999_000,
                ONE == 1_000_000,
        ;
    }
    v as u8
}

/// The output pixel for the sum of `samples_per_pixel` samples: each channel
/// averaged, gamma-corrected, held to `[0, 0.999]` and scaled to `[0, 255]`.
pub fn generate_color(pixel_color: Color, samples_per_pixel: usize) -> (r: Pixel)
    requires
        pixel_color.x >= 0 && pixel_color.y >= 0 && pixel_color.z >= 0,
        samples_per_pixel >= 1,
    ensures
        r == tone_pixel(pixel_color, samples_per_pixel as int),
{
    Pixel {
        r: tone_channel(pixel_color.x, samples_per_pixel),
        g: tone_channel(pixel_color.y, samples_per_pixel),
        b: tone_channel(pixel_color.z, samples_per_pixel),
    }
}

/// The image-plane coordinate of the sample at `index + jitter` along an
/// axis of `size` pixels: `(index + jitter) / (size - 1)`.
pub open spec fn plane_coordinate(index: int, jitter: int, size: int) -> int {
    (index * ONE + jitter) / (size - 1)
}

fn plane_coord(index: u32, jitter: i64, size: u32) -> (r: i64)
    requires
        2 <= size,
        index < size,
        0 <= jitter <= ONE,
    ensures
        r == plane_coordinate(index as int, jitter as int, size as int),
        0 <= r <= 2 * ONE,
{
    let n = index as i64 * ONE + jitter;
    let d = size as i64 - 1;
    proof {
        let one = ONE as int;
        assert(n <= 2 * one * d) by (nonlinear_arith)
            requires
                n == index * one + jitter,
                index + 1 <= d + 1,
                d >= 1,
                jitter <= one,
                one > 0,
        ;
        assert(0 <= n / d <= 2 * one) by (nonlinear_arith)
            requires
                0 <= n <= 2 * one * d,
                d >= 1,
        {
            assert(n == d * (n / d) + n % d);
            assert(0 <= n % d < d);
        }
    }
    n / d
}

/// The channel-wise sum of `cs`.
pub open spec fn sum_colors(cs: Seq<Color>) -> Color
    decreases cs.len(),
{
    if cs.len() == 0 {
        black()
    } else {
        let p = sum_colors(cs.drop_last());
        let l = cs.last();
        Vec3 { x: (p.x + l.x) as i64, y: (p.y + l.y) as i64, z: (p.z + l.z) as i64 }
    }
}

/// What one sample of the pixel at column `i` and row `j` may bring back:
/// the radiance along the camera ray through the pixel moved by jitters
/// `du`, `dv` in `[0, 1]`.
pub open spec fn sample_outcome(
    camera: Camera,
    world: Seq<Sphere>,
    i: int,
    j: int,
    width: int,
    height: int,
    depth: int,
    c: Color,
) -> bool {
    exists|du: int, dv: int|
        0 <= du <= ONE && 0 <= dv <= ONE && radiance_outcome(
            world,
            #[trigger] ray_through(
                camera,
                plane_coordinate(i, du, width),
                plane_coordinate(j, dv, height),
            ),
            depth,
            c,
        )
}

/// What `sample_pixel` may return: the tone-mapped sum of `samples`
/// samples of the pixel.
pub open spec fn pixel_outcome(
    camera: Camera,
    world: Seq<Sphere>,
    i: int,
    j: int,
    width: int,
    height: int,
    samples: int,
    depth: int,
    p: Pixel,
) -> bool {
    exists|cs: Seq<Color>|
        cs.len() == samples && (forall|k: int|
            0 <= k < samples ==> sample_outcome(camera, world, i, j, width, height, depth, #[trigger] cs[k]))
            && p == #[trigger] tone_pixel(sum_colors(cs), samples)
}

/// The pixel at column `i` and row `j` (counted from the bottom): the sum of
/// `samples_per_pixel` jittered camera samples, tone-mapped.
pub fn sample_pixel(
    camera: &Camera,
    world: &[Sphere],
    i: u32,
    j: u32,
    image_width: u32,
    image_height: u32,
    samples_per_pixel: usize,
    max_depth: isize,
    rng: &mut Sampler,
) -> (r: Pixel)
    requires
        camera_valid(*camera),
        scene_valid(world@),
        2 <= image_width && 2 <= image_height,
        i < image_width && j < image_height,
        1 <= samples_per_pixel,
        samples_per_pixel * ONE <= i64::MAX,
    ensures
        pixel_outcome(
            *camera,
            world@,
            i as int,
            j as int,
            image_width as int,
            image_height as int,
            samples_per_pixel as int,
            max_depth as int,
            r,
        ),
{
    let mut pixel_color = Vec3::new(0, 0, 0);
    let mut s: usize = 0;
    let ghost mut cs: Seq<Color> = Seq::empty();
    while s < samples_per_pixel
        invariant
            camera_valid(*camera),
            scene_valid(world@),
            2 <= image_width && 2 <= image_height,
            i < image_width && j < image_height,
            samples_per_pixel * ONE <= i64::MAX,
            s <= samples_per_pixel,
            0 <= pixel_color.x <= s * ONE,
            0 <= pixel_color.y <= s * ONE,
            0 <= pixel_color.z <= s * ONE,
            cs.len() == s,
            pixel_color == sum_colors(cs),
            forall|k: int|
                0 <= k < s ==> sample_outcome(
                    *camera,
                    world@,
                    i as int,
                    j as int,
                    image_width as int,
                    image_height as int,
                    max_depth as int,
                    #[trigger] cs[k],
                ),
        decreases samples_per_pixel - s,
    {
        let du = rng.unit();
        let dv = rng.unit();
        let u = plane_coord(i, du, image_width);
        let v = plane_coord(j, dv, image_height);
        let ray = camera.get_ray(u, v);
        let c = ray_color(&ray, world, max_depth, rng);
        proof {
            assert((s + 1) * ONE <= samples_per_pixel * ONE) by (nonlinear_arith)
                requires
                    s + 1 <= samples_per_pixel,
                    ONE > 0,
            ;
        }
        proof {
            assert(sample_outcome(
                *camera,
                world@,
                i as int,
                j as int,
                image_width as int,
                image_height as int,
                max_depth as int,
                c,
            ));
        }
        pixel_color.add_assign(c);
        proof {
            let old_cs = cs;
            cs = cs.push(c);
            assert(cs.drop_last() =~= old_cs);
        }
        s += 1;
    }
    let r = generate_color(pixel_color, samples_per_pixel);
    proof {
        assert(r == tone_pixel(sum_colors(cs), samples_per_pixel as int));
    }
    r
}

/// The pixel that `render` puts at index `k` of an image `width` wide and
/// `height` high: column `k % width` of row `height - 1 - k / width`, so the
/// top row comes first.
pub open spec fn rendered_pixel(
    camera: Camera,
    world: Seq<Sphere>,
    width: int,
    height: int,
    samples: int,
    depth: int,
    k: int,
    p: Pixel,
) -> bool {
    pixel_outcome(camera, world, k % width, height - 1 - k / width, width, height, samples, depth, p)
}

/// Renders the image: rows from the top of the picture down, each row from
/// left to right, one pixel each.
pub fn render(
    camera: &Camera,
    world: &[Sphere],
    image_width: u32,
    image_height: u32,
    samples_per_pixel: usize,
    max_depth: isize,
    rng: &mut Sampler,
) -> (r: Vec<Pixel>)
    requires
        camera_valid(*camera),
        scene_valid(world@),
        2 <= image_width && 2 <= image_height,
        1 <= samples_per_pixel,
        samples_per_pixel * ONE <= i64::MAX,
    ensures
        r@.len() == image_width * image_height,
        forall|k: int|
            0 <= k < r@.len() ==> rendered_pixel(
                *camera,
                world@,
                image_width as int,
                image_height as int,
                samples_per_pixel as int,
                max_depth as int,
                k,
                #[trigger] r@[k],
            ),
{
    let mut pixels: Vec<Pixel> = Vec::new();
    let mut row: u32 = image_height;
    while row > 0
        invariant
            camera_valid(*camera),
            scene_valid(world@),
            2 <= image_width && 2 <= image_height,
            1 <= samples_per_pixel,
            samples_per_pixel * ONE <= i64::MAX,
            row <= image_height,
            pixels@.len() == (image_height - row) * image_width,
            forall|k: int|
                0 <= k < pixels@.len() ==> rendered_pixel(
                    *camera,
                    world@,
                    image_width as int,
                    image_height as int,
                    samples_per_pixel as int,
                    max_depth as int,
                    k,
                    #[trigger] pixels@[k],
                ),
        decreases row,
    {
        row -= 1;
        let mut i: u32 = 0;
        while i < image_width
            invariant
                camera_valid(*camera),
                scene_valid(world@),
                2 <= image_width && 2 <= image_height,
                1 <= samples_per_pixel,
                samples_per_pixel * ONE <= i64::MAX,
                row < image_height,
                i <= image_width,
                pixels@.len() == (image_height - row - 1) * image_width + i,
                forall|k: int|
                    0 <= k < pixels@.len() ==> rendered_pixel(
                        *camera,
                        world@,
                        image_width as int,
                        image_height as int,
                        samples_per_pixel as int,
                        max_depth as int,
                        k,
                        #[trigger] pixels@[k],
                    ),
            decreases image_width - i,
        {
            let p = sample_pixel(
                camera,
                world,
                i,
                row,
                image_width,
                image_height,
                samples_per_pixel,
                max_depth,
                rng,
            );
            proof {
                let k = pixels@.len() as int;
                let q = image_height - row - 1;
                vstd::arithmetic::div_mod::lemma_fundamental_div_mod_converse(
                    k,
                    image_width as int,
                    q,
                    i as int,
                );
                assert(image_height - 1 - k / (image_width as int) == row);
            }
            pixels.push(p);
            i += 1;
        }
        proof {
            assert((image_height - row - 1) * image_width + image_width == (image_height - row)
                * image_width) by (nonlinear_arith);
        }
    }
    proof {
        assert((image_height - row) * image_width == image_width * image_height) by (nonlinear_arith)
            requires
                row == 0,
        ;
    }
    pixels
}

} // verus!
