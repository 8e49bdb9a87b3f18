use raytracing::camera::Camera;
use raytracing::fixed::ONE;
use raytracing::material::{Lambertian, Material};
use raytracing::ppm::ppm_text;
use raytracing::random::Sampler;
use raytracing::ray::Ray;
use raytracing::render::{clamp, generate_color, ray_color, render, sample_pixel, sky, Pixel};
use raytracing::sphere::Sphere;
use raytracing::vec3::Vec3;

fn fx(v: f64) -> i64 {
    (v * ONE as f64).round() as i64
}

fn v3(x: f64, y: f64, z: f64) -> Vec3 {
    Vec3::new(fx(x), fx(y), fx(z))
}

fn ground(albedo: f64) -> Sphere {
    Sphere::new(
        v3(0.0, -100.5, -1.0),
        fx(100.0),
        Material::Lambertian(Lambertian::new(v3(albedo, albedo, albedo))),
    )
}

#[test]
fn depth_zero_returns_black() {
    let mut rng = Sampler::from_seed(5);
    let world = vec![ground(0.5)];
    for dir in [v3(0.0, 1.0, 0.0), v3(0.0, -1.0, 0.0), v3(0.3, 0.2, -1.0)] {
        let ray = Ray::new(v3(0.0, 0.0, 0.0), dir);
        assert_eq!(ray_color(&ray, &world, 0, &mut rng), v3(0.0, 0.0, 0.0));
        assert_eq!(ray_color(&ray, &world, -3, &mut rng), v3(0.0, 0.0, 0.0));
    }
}

#[test]
fn miss_straight_up_is_zenith_blue() {
    let mut rng = Sampler::from_seed(5);
    let ray = Ray::new(v3(0.0, 0.0, 0.0), v3(0.0, 1.0, 0.0));
    assert_eq!(ray_color(&ray, &[], 10, &mut rng), v3(0.5, 0.7, 1.0));
}

#[test]
fn miss_straight_down_is_white() {
    let mut rng = Sampler::from_seed(5);
    let ray = Ray::new(v3(0.0, 0.0, 0.0), v3(0.0, -1.0, 0.0));
    assert_eq!(ray_color(&ray, &[], 10, &mut rng), v3(1.0, 1.0, 1.0));
}

#[test]
fn horizontal_sky_is_halfway() {
    // t = 0.5: halfway between white and (0.5, 0.7, 1.0)
    assert_eq!(sky(v3(1.0, 0.0, 0.0)), v3(0.75, 0.85, 1.0));
}

#[test]
fn radiance_never_exceeds_one() {
    let mut rng = Sampler::from_seed(9);
    let world = vec![ground(0.8), Sphere::new(v3(0.0, 0.0, -1.0), fx(0.5), Material::Lambertian(Lambertian::new(v3(0.1, 0.2, 0.5))))];
    for k in 0..40 {
        let x = (k as f64 - 20.0) / 20.0;
        let ray = Ray::new(v3(0.0, 0.0, 0.0), v3(x, -0.3, -1.0));
        let c = ray_color(&ray, &world, 5, &mut rng);
        for ch in [c.x, c.y, c.z] {
            assert!((0..=ONE).contains(&ch));
        }
    }
}

#[test]
fn one_bounce_off_gray_ground_is_black_at_depth_one() {
    // at depth 1 the scattered ray has no depth left
    let mut rng = Sampler::from_seed(2);
    let world = vec![ground(0.5)];
    let ray = Ray::new(v3(0.0, 0.0, 0.0), v3(0.0, -1.0, 0.0));
    assert_eq!(ray_color(&ray, &world, 1, &mut rng), v3(0.0, 0.0, 0.0));
}

#[test]
fn two_bounces_attenuate_the_sky() {
    let mut rng = Sampler::from_seed(4);
    let world = vec![ground(0.5)];
    let ray = Ray::new(v3(0.0, 0.0, 0.0), v3(0.0, -1.0, 0.0));
    let c = ray_color(&ray, &world, 2, &mut rng);
    // half of a sky color, whose channels lie in [0.5, 1]
    for ch in [c.x, c.y, c.z] {
        assert!(ch >= fx(0.25) - 1 && ch <= fx(0.5));
    }
}

#[test]
fn clamp_holds_to_range() {
    assert_eq!(clamp(-5, 0, 10), 0);
    assert_eq!(clamp(15, 0, 10), 10);
    assert_eq!(clamp(7, 0, 10), 7);
}

#[test]
fn generate_color_gamma_and_clamp() {
    let p = generate_color(v3(0.25, 1.0, 0.0), 1);
    assert_eq!(p, Pixel { r: 128, g: 255, b: 0 });
    // four samples summing to 1.0 average to 0.25
    let p = generate_color(v3(1.0, 4.0, 0.36), 4);
    assert_eq!(p, Pixel { r: 128, g: 255, b: 76 });
}

#[test]
fn sample_pixel_of_empty_scene_is_sky() {
    let mut rng = Sampler::from_seed(8);
    let camera = Camera::new(fx(2.0), fx(2.0), fx(1.0));
    let p = sample_pixel(&camera, &[], 0, 0, 2, 2, 3, 5, &mut rng);
    // the sky is bluest channel last: blue stays at the top of the range
    assert_eq!(p.b, 255);
    assert!(p.r <= p.g && p.g <= p.b);
}

#[test]
fn ppm_header_and_pixel_lines() {
    let pixels = vec![Pixel { r: 0, g: 128, b: 255 }, Pixel { r: 7, g: 10, b: 99 }];
    let text = String::from_utf8(ppm_text(2, 1, &pixels)).unwrap();
    assert_eq!(text, "P3\n2 1\n255\n0 128 255\n7 10 99\n");
}

#[test]
fn render_two_by_two_ground_scene() {
    let mut rng = Sampler::from_seed(2024);
    let camera = Camera::new(fx(1.0), fx(2.0), fx(1.0));
    let world = vec![ground(0.5)];
    let pixels = render(&camera, &world, 2, 2, 1, 1, &mut rng);
    assert_eq!(pixels.len(), 4);
    let text = String::from_utf8(ppm_text(2, 2, &pixels)).unwrap();
    assert!(text.starts_with("P3\n2 2\n255\n"));
    let lines: Vec<&str> = text.lines().skip(3).collect();
    assert_eq!(lines.len(), 4);
    for line in lines {
        let channels: Vec<u32> = line.split(' ').map(|c| c.parse().unwrap()).collect();
        assert_eq!(channels.len(), 3);
        assert!(channels.iter().all(|c| *c <= 255));
    }
}
