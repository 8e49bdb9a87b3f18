use raytracing::fixed::ONE;
use raytracing::hittable::HitRecord;
use raytracing::material::{
    first_in_ball, random_in_unit_sphere, Dielectric, Lambertian, Material, Metal,
};
use raytracing::random::Sampler;
use raytracing::ray::Ray;
use raytracing::vec3::Vec3;

fn fx(v: f64) -> i64 {
    (v * ONE as f64).round() as i64
}

fn v3(x: f64, y: f64, z: f64) -> Vec3 {
    Vec3::new(fx(x), fx(y), fx(z))
}

fn record(p: Vec3, normal: Vec3, front_face: bool, material: Material) -> HitRecord {
    let mut rec = HitRecord::new_empty();
    rec.p = p;
    rec.normal = normal;
    rec.front_face = front_face;
    rec.material = material;
    rec
}

fn dot(a: Vec3, b: Vec3) -> i128 {
    a.x as i128 * b.x as i128 + a.y as i128 * b.y as i128 + a.z as i128 * b.z as i128
}

#[test]
fn unit_ball_samples_lie_inside() {
    let mut rng = Sampler::from_seed(7);
    for _ in 0..200 {
        let q = random_in_unit_sphere(&mut rng);
        assert!(dot(q, q) < ONE as i128 * ONE as i128);
    }
}

#[test]
fn same_seed_gives_same_draws() {
    let mut a = Sampler::from_seed(42);
    let mut b = Sampler::from_seed(42);
    let xs: Vec<i64> = (0..20).map(|_| a.between(-5, 5)).collect();
    let ys: Vec<i64> = (0..20).map(|_| b.between(-5, 5)).collect();
    assert_eq!(xs, ys);
    assert!(xs.iter().all(|x| (-5..=5).contains(x)));
    assert!(xs.iter().any(|x| *x != xs[0]));
}

#[test]
fn lambertian_bounces_toward_normal_plus_offset() {
    let l = Lambertian::new(v3(0.5, 0.6, 0.7));
    let rec = record(v3(1.0, 2.0, 3.0), v3(0.0, 1.0, 0.0), true, Material::Lambertian(l));
    let (att, ray) = l.scatter_toward(&rec, v3(0.0, 0.0, 0.5));
    assert_eq!(att, v3(0.5, 0.6, 0.7));
    assert_eq!(ray, Ray::new(v3(1.0, 2.0, 3.0), v3(0.0, 1.0, 0.5)));
}

#[test]
fn lambertian_falls_back_to_normal_on_zero_direction() {
    let l = Lambertian::new(v3(0.5, 0.5, 0.5));
    let rec = record(v3(0.0, 0.0, 0.0), v3(0.0, 0.5, 0.0), true, Material::Lambertian(l));
    let (_, ray) = l.scatter_toward(&rec, v3(0.0, -0.5, 0.0));
    assert_eq!(ray.direction, v3(0.0, 0.5, 0.0));
}

#[test]
fn lambertian_always_scatters_with_albedo() {
    let mut rng = Sampler::from_seed(1);
    let l = Lambertian::new(v3(0.2, 0.4, 0.6));
    let rec = record(v3(0.0, 0.0, 0.0), v3(0.0, 1.0, 0.0), true, Material::Lambertian(l));
    let r_in = Ray::new(v3(0.0, 1.0, 0.0), v3(0.0, -1.0, 0.0));
    for _ in 0..50 {
        let (att, _) = l.scatter(&r_in, &rec, &mut rng).unwrap();
        assert_eq!(att, v3(0.2, 0.4, 0.6));
    }
}

#[test]
fn metal_absorbs_reflection_into_the_surface() {
    // the incoming ray travels along the normal, so the mirror image of its
    // direction points back into the surface
    let m = Metal::new(v3(0.8, 0.8, 0.8), 0);
    let rec = record(v3(0.0, 0.0, 0.0), v3(0.0, -1.0, 0.0), false, Material::Metal(m));
    let r_in = Ray::new(v3(0.0, 1.0, 0.0), v3(0.0, -1.0, 0.0));
    assert!(m.scatter_toward(&r_in, &rec, v3(0.0, 0.0, 0.0)).is_none());
}

#[test]
fn metal_fuzz_can_push_reflection_below_surface() {
    let m = Metal::new(v3(0.8, 0.8, 0.8), fx(1.0));
    let rec = record(v3(0.0, 0.0, 0.0), v3(0.0, 1.0, 0.0), true, Material::Metal(m));
    // a grazing ray reflects almost flat; the offset pulls it under
    let r_in = Ray::new(v3(-1.0, 0.1, 0.0), v3(1.0, -0.1, 0.0));
    assert!(m.scatter_toward(&r_in, &rec, v3(0.0, -0.9, 0.0)).is_none());
    let (att, ray) = m.scatter_toward(&r_in, &rec, v3(0.0, 0.0, 0.0)).unwrap();
    assert_eq!(att, v3(0.8, 0.8, 0.8));
    assert!(ray.direction.y > 0);
}

#[test]
fn metal_mirror_reflection() {
    let m = Metal::new(v3(0.8, 0.6, 0.2), 0);
    let rec = record(v3(0.0, 0.0, 0.0), v3(0.0, 1.0, 0.0), true, Material::Metal(m));
    let r_in = Ray::new(v3(-1.0, 1.0, 0.0), v3(0.6, -0.8, 0.0));
    let (att, ray) = m.scatter_toward(&r_in, &rec, v3(0.0, 0.0, 0.0)).unwrap();
    assert_eq!(att, v3(0.8, 0.6, 0.2));
    assert_eq!(ray.direction, v3(0.6, 0.8, 0.0));
}

#[test]
fn reflectance_at_normal_incidence() {
    // ((1 - 1.5) / (1 + 1.5))^2 = 0.04
    assert_eq!(Dielectric::reflectance(fx(1.0), fx(1.5)), fx(0.04));
    // at grazing incidence everything is reflected
    assert_eq!(Dielectric::reflectance(0, fx(1.5)), fx(1.0));
}

#[test]
fn dielectric_total_internal_reflection() {
    let d = Dielectric::new(fx(1.5));
    // leaving the glass at 60 degrees from the normal: 1.5 * sin > 1
    let rec = record(v3(0.0, 0.0, 0.0), v3(0.0, -1.0, 0.0), false, Material::Dielectric(d));
    let r_in = Ray::new(v3(0.0, -1.0, 0.0), v3(0.866025, 0.5, 0.0));
    let (att, ray) = d.scatter_with(&r_in, &rec, fx(1.0));
    assert_eq!(att, v3(1.0, 1.0, 1.0));
    assert!(ray.direction.y < 0);
}

#[test]
fn dielectric_refracts_straight_through_at_normal_incidence() {
    let d = Dielectric::new(fx(1.5));
    let rec = record(v3(0.0, 0.0, 0.0), v3(0.0, 1.0, 0.0), true, Material::Dielectric(d));
    let r_in = Ray::new(v3(0.0, 1.0, 0.0), v3(0.0, -1.0, 0.0));
    // chance above the reflectance 0.04: refraction
    let (_, ray) = d.scatter_with(&r_in, &rec, fx(0.5));
    assert_eq!(ray.direction, v3(0.0, -1.0, 0.0));
    // chance below it: reflection
    let (_, ray) = d.scatter_with(&r_in, &rec, fx(0.01));
    assert_eq!(ray.direction, v3(0.0, 1.0, 0.0));
}

#[test]
fn void_material_absorbs() {
    let mut rng = Sampler::from_seed(3);
    let rec = record(v3(0.0, 0.0, 0.0), v3(0.0, 1.0, 0.0), true, Material::Void);
    let r_in = Ray::new(v3(0.0, 1.0, 0.0), v3(0.0, -1.0, 0.0));
    assert!(Material::Void.scatter(&r_in, &rec, &mut rng).is_none());
}

#[test]
fn attenuations_stay_within_unit_range() {
    let mut rng = Sampler::from_seed(11);
    let materials = [
        Material::Lambertian(Lambertian::new(v3(0.8, 0.8, 0.0))),
        Material::Metal(Metal::new(v3(0.8, 0.6, 0.2), fx(0.3))),
        Material::Dielectric(Dielectric::new(fx(1.5))),
    ];
    let r_in = Ray::new(v3(0.0, 1.0, 0.0), v3(0.3, -1.0, 0.2));
    for m in materials.iter() {
        let rec = record(v3(0.0, 0.0, 0.0), v3(0.0, 1.0, 0.0), true, *m);
        for _ in 0..50 {
            if let Some((att, _)) = m.scatter(&r_in, &rec, &mut rng) {
                for c in [att.x, att.y, att.z] {
                    assert!((0..=ONE).contains(&c));
                }
            }
        }
    }
}

#[test]
fn first_in_ball_picks_first_inside() {
    use_first_in_ball();
}

fn use_first_in_ball() {
    let outside = v3(0.9, 0.9, 0.0);
    let inside = v3(0.1, -0.2, 0.3);
    let also_inside = v3(0.0, 0.5, 0.0);
    assert_eq!(first_in_ball(&[outside, inside, also_inside]), inside);
    assert_eq!(first_in_ball(&[also_inside, inside]), also_inside);
    assert_eq!(first_in_ball(&[outside, v3(1.0, 0.0, 0.0)]), v3(0.0, 0.0, 0.0));
    assert_eq!(first_in_ball(&[]), v3(0.0, 0.0, 0.0));
}
