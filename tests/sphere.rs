use raytracing::fixed::ONE;
use raytracing::hittable::scene_is_valid;
use raytracing::material::{Dielectric, Lambertian, Material, Metal};
use raytracing::ray::Ray;
use raytracing::sphere::Sphere;
use raytracing::vec3::Vec3;

fn fx(v: f64) -> i64 {
    (v * ONE as f64).round() as i64
}

fn v3(x: f64, y: f64, z: f64) -> Vec3 {
    Vec3::new(fx(x), fx(y), fx(z))
}

fn dot(a: Vec3, b: Vec3) -> i128 {
    a.x as i128 * b.x as i128 + a.y as i128 * b.y as i128 + a.z as i128 * b.z as i128
}

#[test]
fn new_sphere() {
    let sphere = Sphere::new(v3(10.0, 11.0, 12.0), fx(50.0), Material::Void);
    assert_eq!(sphere.center, v3(10.0, 11.0, 12.0));
    assert_eq!(sphere.radius, fx(50.0));
}

#[test]
fn ray_aimed_at_center_hits_at_distance_minus_radius() {
    // origin (1, 2, 3), center (1, 2, -7): distance 10, radius 2.5
    let sphere = Sphere::new(v3(1.0, 2.0, -7.0), fx(2.5), Material::Void);
    let ray = Ray::new(v3(1.0, 2.0, 3.0), v3(0.0, 0.0, -0.5));
    let hit = sphere.hit(&ray, fx(0.001), i64::MAX).unwrap();
    // t counts in lengths of the direction, here 0.5 units
    let travelled = hit.t as f64 * 0.5 / ONE as f64;
    assert!((travelled - 7.5).abs() < 1e-5);
    assert_eq!(hit.normal, v3(0.0, 0.0, 1.0));
    assert!(hit.front_face);
}

#[test]
fn oblique_ray_aimed_at_center() {
    let sphere = Sphere::new(v3(3.0, 4.0, 0.0), fx(1.0), Material::Void);
    let ray = Ray::new(v3(0.0, 0.0, 0.0), v3(0.6, 0.8, 0.0));
    let hit = sphere.hit(&ray, fx(0.001), i64::MAX).unwrap();
    assert!((hit.t as f64 / ONE as f64 - 4.0).abs() < 1e-5);
    assert!((hit.normal.x as f64 / ONE as f64 + 0.6).abs() < 1e-5);
    assert!((hit.normal.y as f64 / ONE as f64 + 0.8).abs() < 1e-5);
}

#[test]
fn hit_from_inside_has_normal_against_the_ray() {
    let sphere = Sphere::new(v3(0.0, 0.0, 0.0), fx(2.0), Material::Void);
    let ray = Ray::new(v3(0.0, 0.0, 0.0), v3(1.0, 0.0, 0.0));
    let hit = sphere.hit(&ray, fx(0.001), i64::MAX).unwrap();
    assert_eq!(hit.t, fx(2.0));
    assert!(!hit.front_face);
    assert_eq!(hit.normal, v3(-1.0, 0.0, 0.0));
    assert!(dot(ray.direction, hit.normal) <= 0);
}

#[test]
fn negative_radius_turns_the_normal_inward() {
    let sphere = Sphere::new(v3(0.0, 0.0, -5.0), fx(-1.0), Material::Void);
    let ray = Ray::new(v3(0.0, 0.0, 0.0), v3(0.0, 0.0, -1.0));
    let hit = sphere.hit(&ray, fx(0.001), i64::MAX).unwrap();
    assert_eq!(hit.t, fx(4.0));
    assert!(!hit.front_face);
    assert_eq!(hit.normal, v3(0.0, 0.0, 1.0));
    assert!(dot(ray.direction, hit.normal) <= 0);
}

#[test]
fn ray_pointing_away_misses() {
    let sphere = Sphere::new(v3(0.0, 0.0, -5.0), fx(1.0), Material::Void);
    let ray = Ray::new(v3(0.0, 0.0, 0.0), v3(0.0, 0.0, 1.0));
    assert!(sphere.hit(&ray, fx(0.001), i64::MAX).is_none());
}

#[test]
fn roots_outside_the_range_are_rejected() {
    let sphere = Sphere::new(v3(0.0, 0.0, -5.0), fx(1.0), Material::Void);
    let ray = Ray::new(v3(0.0, 0.0, 0.0), v3(0.0, 0.0, -1.0));
    // both roots (4 and 6) lie beyond 3
    assert!(sphere.hit(&ray, fx(0.001), fx(3.0)).is_none());
    // the near root is at or below t_min: the far one is taken
    let hit = sphere.hit(&ray, fx(4.0), i64::MAX).unwrap();
    assert_eq!(hit.t, fx(6.0));
}

#[test]
fn sideways_ray_misses() {
    let sphere = Sphere::new(v3(0.0, 5.0, -5.0), fx(1.0), Material::Void);
    let ray = Ray::new(v3(0.0, 0.0, 0.0), v3(0.0, 0.0, -1.0));
    assert!(sphere.hit(&ray, fx(0.001), i64::MAX).is_none());
}

#[test]
fn validity_of_spheres_and_scenes() {
    let good = Sphere::new(v3(0.0, -100.5, -1.0), fx(100.0), Material::Lambertian(Lambertian::new(v3(0.8, 0.8, 0.0))));
    assert!(good.is_valid());
    let hollow = Sphere::new(v3(-1.0, 0.0, -1.0), fx(-0.4), Material::Dielectric(Dielectric::new(fx(1.5))));
    assert!(hollow.is_valid());
    let zero_radius = Sphere::new(v3(0.0, 0.0, 0.0), 0, Material::Void);
    assert!(!zero_radius.is_valid());
    let too_bright = Sphere::new(v3(0.0, 0.0, 0.0), fx(1.0), Material::Lambertian(Lambertian::new(v3(1.5, 0.0, 0.0))));
    assert!(!too_bright.is_valid());
    let too_fuzzy = Sphere::new(v3(0.0, 0.0, 0.0), fx(1.0), Material::Metal(Metal::new(v3(0.5, 0.5, 0.5), fx(2.0))));
    assert!(!too_fuzzy.is_valid());
    let far_away = Sphere::new(v3(5000.0, 0.0, 0.0), fx(1.0), Material::Void);
    assert!(!far_away.is_valid());
    assert!(scene_is_valid(&[good, hollow]));
    assert!(!scene_is_valid(&[good, zero_radius]));
    assert!(scene_is_valid(&[]));
}

#[test]
fn large_sphere_far_root_is_reported() {
    // the ray starts inside: the near root lies behind it, the far one at 950
    let sphere = Sphere::new(v3(50.0, 0.0, 0.0), fx(900.0), Material::Void);
    assert!(sphere.is_valid());
    let ray = Ray::new(v3(0.0, 0.0, 0.0), v3(1.0, 0.0, 0.0));
    let hit = sphere.hit(&ray, fx(0.001), i64::MAX).unwrap();
    assert_eq!(hit.t, fx(950.0));
    assert_eq!(hit.p, v3(950.0, 0.0, 0.0));
    assert!(!hit.front_face);
    assert_eq!(hit.normal, v3(-1.0, 0.0, 0.0));
}

#[test]
fn sphere_reaching_past_the_world_is_invalid() {
    let sphere = Sphere::new(v3(500.0, 0.0, 0.0), fx(1000.0), Material::Void);
    assert!(!sphere.is_valid());
}
