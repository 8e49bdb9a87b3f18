use raytracing::camera::Camera;
use raytracing::fixed::ONE;
use raytracing::ray::Ray;
use raytracing::vec3::Vec3;

fn fx(v: f64) -> i64 {
    (v * ONE as f64).round() as i64
}

fn v3(x: f64, y: f64, z: f64) -> Vec3 {
    Vec3::new(fx(x), fx(y), fx(z))
}

#[test]
fn new_camera() {
    let camera = Camera::new(fx(2.0), fx(3.0), fx(1.0));
    assert_eq!(camera.origin, v3(0.0, 0.0, 0.0));
    assert_eq!(camera.horizontal, v3(6.0, 0.0, 0.0));
    assert_eq!(camera.vertical, v3(0.0, 3.0, 0.0));
    assert_eq!(camera.lower_left_corner, v3(-3.0, -1.5, -1.0));
}

#[test]
fn get_ray() {
    let camera = Camera::new(fx(2.0), fx(3.0), fx(1.0));
    let result = camera.get_ray(fx(10.0), fx(10.0));
    assert_eq!(result, Ray::new(v3(0.0, 0.0, 0.0), v3(57.0, 28.5, -1.0)));
}

#[test]
fn get_ray_center_of_view() {
    let camera = Camera::new(fx(16.0 / 9.0), fx(2.0), fx(1.0));
    let result = camera.get_ray(fx(0.5), fx(0.5));
    assert_eq!(result.direction.y, 0);
    assert_eq!(result.direction.z, fx(-1.0));
    assert!(result.direction.x.abs() <= 1);
}

#[test]
fn camera_parameter_ranges() {
    use_camera_params();
}

fn use_camera_params() {
    use_params(fx(16.0 / 9.0), fx(2.0), fx(1.0), true);
    use_params(fx(2.0), 0, fx(1.0), false);
    use_params(fx(2.0), fx(2.0), 0, false);
    use_params(fx(200.0), fx(2.0), fx(1.0), false);
}

fn use_params(a: i64, h: i64, f: i64, expected: bool) {
    assert_eq!(raytracing::camera::camera_params_valid(a, h, f), expected);
}
