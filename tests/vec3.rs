use raytracing::fixed::ONE;
use raytracing::vec3::Vec3;

fn fx(v: f64) -> i64 {
    (v * ONE as f64).round() as i64
}

fn v3(x: f64, y: f64, z: f64) -> Vec3 {
    Vec3::new(fx(x), fx(y), fx(z))
}

#[test]
fn create_new_vec3() {
    let test = v3(43.0, 44.0, 45.0);
    assert_eq!(test.x, fx(43.0));
    assert_eq!(test.y, fx(44.0));
    assert_eq!(test.z, fx(45.0));
}

#[test]
fn add_two_vec3() {
    let test1 = v3(43.0, 44.0, 45.0);
    let test2 = v3(5.0, 6.0, 7.0);
    let result = test1.add(test2);
    assert_eq!(result.x, fx(48.0));
    assert_eq!(result.y, fx(50.0));
    assert_eq!(result.z, fx(52.0));
}

#[test]
fn add_assign_two_vec3() {
    let mut test1 = v3(43.0, 44.0, 45.0);
    let test2 = v3(5.0, 6.0, 7.0);
    test1.add_assign(test2);
    assert_eq!(test1.x, fx(48.0));
    assert_eq!(test1.y, fx(50.0));
    assert_eq!(test1.z, fx(52.0));
}

#[test]
fn mul_assign_vec3() {
    let mut test1 = v3(10.0, 11.0, 9.0);
    test1.mul_assign(fx(10.0));
    assert_eq!(test1.x, fx(100.0));
    assert_eq!(test1.y, fx(110.0));
    assert_eq!(test1.z, fx(90.0));
}

#[test]
fn index_of_vec3() {
    let test1 = v3(10.0, 11.0, 9.0);
    assert_eq!(test1.index(0), fx(10.0));
    assert_eq!(test1.index(1), fx(11.0));
    assert_eq!(test1.index(2), fx(9.0));
}

#[test]
fn neg_of_vec3() {
    let test1 = v3(10.0, 11.0, 9.0);
    let result = test1.neg();
    assert_eq!(result.index(0), fx(-10.0));
    assert_eq!(result.index(1), fx(-11.0));
    assert_eq!(result.index(2), fx(-9.0));
}

#[test]
fn div_assign_vec3() {
    let mut test1 = v3(10.0, 11.0, 9.0);
    test1.div_assign(fx(10.0));
    assert_eq!(test1.x, fx(1.0));
    assert_eq!(test1.y, fx(1.1));
    assert_eq!(test1.z, fx(0.9));
}

#[test]
fn length_squared() {
    let test1 = v3(10.0, 11.0, 9.0);
    let result = test1.length_squared();
    assert_eq!(result, fx(302.0));
}

#[test]
fn length() {
    let test1 = v3(10.0, 11.0, 9.0);
    let result = test1.length();
    // 17.378147196982766, rounded down to the fixed-point step
    assert_eq!(result, 17_378_147);
}

#[test]
fn sub_f64_vec3() {
    let test1 = v3(43.0, 44.0, 45.0);
    let test2 = v3(3.0, 6.0, 6.0);
    let result = test1.sub(test2);
    assert_eq!(result.x, fx(40.0));
    assert_eq!(result.y, fx(38.0));
    assert_eq!(result.z, fx(39.0));
}

#[test]
fn div_f64_vec3() {
    let test1 = v3(45.0, 40.0, 35.0);
    let result = test1.div(fx(5.0));
    assert_eq!(result.x, fx(9.0));
    assert_eq!(result.y, fx(8.0));
    assert_eq!(result.z, fx(7.0));
}

#[test]
fn mul_f64_vec3_left() {
    let test1 = v3(5.0, 6.0, 7.0);
    let result = test1.scale(fx(5.0));
    assert_eq!(result.x, fx(25.0));
    assert_eq!(result.y, fx(30.0));
    assert_eq!(result.z, fx(35.0));
}

#[test]
fn mul_f64_vec3_right() {
    let test1 = v3(5.0, 6.0, 7.0);
    let result = test1.scale(fx(5.0));
    assert_eq!(result.x, fx(25.0));
    assert_eq!(result.y, fx(30.0));
    assert_eq!(result.z, fx(35.0));
}

#[test]
fn mul_vec3_vec3() {
    let test1 = v3(5.0, 6.0, 7.0);
    let test2 = v3(1.0, 2.0, 3.0);
    let result = test1.mul(test2);
    assert_eq!(result.x, fx(5.0));
    assert_eq!(result.y, fx(12.0));
    assert_eq!(result.z, fx(21.0));
}

#[test]
fn cross() {
    let test1 = v3(5.0, 6.0, 7.0);
    let test2 = v3(1.0, 2.0, 3.0);
    let result = test1.cross(test2);
    assert_eq!(result.x, fx(4.0));
    assert_eq!(result.y, fx(-8.0));
    assert_eq!(result.z, fx(4.0));
}

#[test]
fn dot() {
    let test1 = v3(5.0, 6.0, 7.0);
    let test2 = v3(1.0, 2.0, 3.0);
    let result = test1.dot(test2);
    assert_eq!(result, fx(38.0));
}

#[test]
fn vec3_equality() {
    let test1 = v3(5.0, 6.0, 7.0);
    let test2 = v3(1.0, 2.0, 3.0);
    assert_ne!(test1, test2);
    let test3 = v3(5.0, 6.0, 7.0);
    assert_eq!(test1, test3);
}

#[test]
fn unit_vector_has_unit_length() {
    let u = v3(3.0, 0.0, -4.0).unit_vector();
    assert_eq!(u, v3(0.6, 0.0, -0.8));
}

#[test]
fn reflect_mirrors_about_normal() {
    let r = v3(1.0, -1.0, 0.0).reflect(v3(0.0, 1.0, 0.0));
    assert_eq!(r, v3(1.0, 1.0, 0.0));
}

#[test]
fn refract_at_normal_incidence_goes_straight() {
    let r = v3(0.0, 0.0, -1.0).refract(v3(0.0, 0.0, 1.0), fx(1.0 / 1.5));
    assert_eq!(r, v3(0.0, 0.0, -1.0));
}

#[test]
fn near_zero_only_for_zero() {
    assert!(v3(0.0, 0.0, 0.0).near_zero());
    assert!(!Vec3::new(0, 1, 0).near_zero());
}

#[test]
fn set_index_changes_one_component() {
    let mut v = v3(10.0, 11.0, 9.0);
    v.set_index(1, fx(-2.5));
    assert_eq!(v, v3(10.0, -2.5, 9.0));
}

#[test]
fn short_vector_keeps_its_direction() {
    let u = Vec3::new(1, 1, 0).unit_vector();
    // 10^12 / floor(sqrt(2) 10^6) = 10^12 / 1414213, rounded down
    assert_eq!(u, Vec3::new(707_107, 707_107, 0));
}
