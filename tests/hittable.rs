use raytracing::fixed::ONE;
use raytracing::hittable::{hit_world, HitRecord, HittableList};
use raytracing::material::{Lambertian, Material};
use raytracing::ray::Ray;
use raytracing::sphere::Sphere;
use raytracing::vec3::Vec3;

fn fx(v: f64) -> i64 {
    (v * ONE as f64).round() as i64
}

fn v3(x: f64, y: f64, z: f64) -> Vec3 {
    Vec3::new(fx(x), fx(y), fx(z))
}

#[test]
fn new_empty_hit_record() {
    let empty = HitRecord::new_empty();
    assert_eq!(empty.p, v3(0.0, 0.0, 0.0));
    assert_eq!(empty.normal, v3(0.0, 0.0, 0.0));
    assert_eq!(empty.t, 0);
    assert!(!empty.front_face);
}

#[test]
fn set_face_normal_hit_record_false() {
    let mut record = HitRecord::new_empty();
    let ray = Ray::new(v3(0.0, 0.0, 0.0), v3(1.0, 0.0, 0.0));
    let normal = v3(10.0, 10.0, 10.0);
    record.set_face_normal(&ray, normal);
    assert_eq!(record.normal, v3(-10.0, -10.0, -10.0));
}

#[test]
fn set_face_normal_hit_record_true() {
    let mut record = HitRecord::new_empty();
    let ray = Ray::new(v3(0.0, 0.0, 0.0), v3(-1.0, -1.0, -1.0));
    let normal = v3(10.0, 10.0, 10.0);
    record.set_face_normal(&ray, normal);
    assert_eq!(record.normal, v3(10.0, 10.0, 10.0));
}

#[test]
fn hittable_new_hittable_list() {
    let list = HittableList::new();
    assert_eq!(list.objects.len(), 0);
}

#[test]
fn hittable_add_hittable_list() {
    let mut list = HittableList::new();
    let item1 = Sphere::new(v3(0.0, 0.0, 0.0), fx(100.0), Material::Void);
    list.add(item1);
    assert_eq!(list.objects.len(), 1);
    let item2 = Sphere::new(v3(0.0, 0.0, 0.0), fx(100.0), Material::Void);
    list.add(item2);
    assert_eq!(list.objects.len(), 2);
}

#[test]
fn hittable_clear_hittable_list() {
    let mut list = HittableList::new();
    let item1 = Sphere::new(v3(0.0, 0.0, 0.0), fx(100.0), Material::Void);
    list.add(item1);
    let item2 = Sphere::new(v3(0.0, 0.0, 0.0), fx(100.0), Material::Void);
    list.add(item2);
    list.clear();
    assert_eq!(list.objects.len(), 0);
}

#[test]
fn hittable_list_new_hittable_list() {
    let list = raytracing::hittable_list::HittableList::new();
    assert_eq!(list.objects.len(), 0);
}

#[test]
fn hittable_list_add_hittable_list() {
    let mut list = raytracing::hittable_list::HittableList::new();
    let item1 = Sphere::new(v3(0.0, 0.0, 0.0), fx(100.0), Material::Void);
    list.add(item1);
    assert_eq!(list.objects.len(), 1);
    let item2 = Sphere::new(v3(0.0, 0.0, 0.0), fx(100.0), Material::Void);
    list.add(item2);
    assert_eq!(list.objects.len(), 2);
}

#[test]
fn hittable_list_clear_hittable_list() {
    let mut list = raytracing::hittable_list::HittableList::new();
    let item1 = Sphere::new(v3(0.0, 0.0, 0.0), fx(100.0), Material::Void);
    list.add(item1);
    let item2 = Sphere::new(v3(0.0, 0.0, 0.0), fx(100.0), Material::Void);
    list.add(item2);
    list.clear();
    assert_eq!(list.objects.len(), 0);
}

fn gray() -> Material {
    Material::Lambertian(Lambertian::new(v3(0.5, 0.5, 0.5)))
}

#[test]
fn closest_of_two_overlapping_spheres_wins() {
    let near = Sphere::new(v3(0.0, 0.0, -3.0), fx(1.0), gray());
    let far = Sphere::new(v3(0.0, 0.0, -4.0), fx(1.5), gray());
    let ray = Ray::new(v3(0.0, 0.0, 0.0), v3(0.0, 0.0, -1.0));
    let both_orders = [vec![near, far], vec![far, near]];
    for world in both_orders.iter() {
        let hit = hit_world(world, &ray, fx(0.001), i64::MAX).unwrap();
        assert_eq!(hit.t, fx(2.0));
        assert_eq!(hit.p, v3(0.0, 0.0, -2.0));
    }
}

#[test]
fn a_miss_does_not_discard_an_earlier_hit() {
    let hit_sphere = Sphere::new(v3(0.0, 0.0, -3.0), fx(1.0), gray());
    let missed = Sphere::new(v3(10.0, 0.0, -3.0), fx(1.0), gray());
    let mut list = HittableList::new();
    list.add(hit_sphere);
    list.add(missed);
    let ray = Ray::new(v3(0.0, 0.0, 0.0), v3(0.0, 0.0, -1.0));
    let hit = list.hit(&ray, fx(0.001), i64::MAX).unwrap();
    assert_eq!(hit.t, fx(2.0));
}

#[test]
fn empty_list_reports_no_hit() {
    let list = HittableList::new();
    let ray = Ray::new(v3(0.0, 0.0, 0.0), v3(0.0, 0.0, -1.0));
    assert!(list.hit(&ray, fx(0.001), i64::MAX).is_none());
}

#[test]
fn every_reported_hit_faces_the_ray() {
    use_sampler_rays(|ray, world| {
        if let Some(hit) = hit_world(world, &ray, fx(0.001), i64::MAX) {
            let d = ray.direction;
            let n = hit.normal;
            let dot = d.x as i128 * n.x as i128 + d.y as i128 * n.y as i128 + d.z as i128 * n.z as i128;
            assert!(dot <= 0);
        }
    });
}

fn use_sampler_rays(check: impl Fn(Ray, &[Sphere])) {
    let mut rng = raytracing::random::Sampler::from_seed(99);
    let world = vec![
        Sphere::new(v3(0.0, -100.5, -1.0), fx(100.0), gray()),
        Sphere::new(v3(0.0, 0.0, -1.0), fx(0.5), gray()),
        Sphere::new(v3(-1.0, 0.0, -1.0), fx(-0.4), gray()),
    ];
    for _ in 0..500 {
        let o = Vec3::new(rng.between(-fx(2.0), fx(2.0)), rng.between(-fx(1.0), fx(2.0)), rng.between(-fx(2.0), fx(1.0)));
        let d = Vec3::new(rng.between(-ONE, ONE), rng.between(-ONE, ONE), rng.between(-ONE, ONE));
        if d.near_zero() {
            continue;
        }
        check(Ray::new(o, d), &world);
    }
}
