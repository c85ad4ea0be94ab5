use softrender::vec::{Vec2, Vec3};

#[test]
fn vec2_new_and_as_tuple() {
    let v = Vec2::new(3, -4);
    assert_eq!(v.0, [3, -4]);
    assert_eq!(v.as_tuple(), (3, -4));
}

#[test]
fn vec3_new_and_as_tuple() {
    let v = Vec3::new(1u8, 2, 3);
    assert_eq!(v.0, [1, 2, 3]);
    assert_eq!(v.as_tuple(), (1, 2, 3));
}

#[test]
fn vec3_scale_multiplies_every_lane() {
    assert_eq!(Vec3::new(1i64, -2, 3).scale(5).0, [5, -10, 15]);
    assert_eq!(Vec3::new(7i32, 8, 9).scale(0).0, [0, 0, 0]);
}

#[test]
fn vec3_sub_subtracts_lane_by_lane() {
    assert_eq!(Vec3::new(10i64, 20, 30).sub(&Vec3::new(1, 22, 3)).0, [9, -2, 27]);
}

#[test]
fn vec3_dot_adds_the_products() {
    assert_eq!(Vec3::new(1i64, 2, 3).dot(&Vec3::new(4, -5, 6)), 12);
    assert_eq!(Vec3::new(1i32, 0, 0).dot(&Vec3::new(0, 1, 0)), 0);
}

#[test]
fn vec3_cross_of_the_axes() {
    let x = Vec3::new(1i64, 0, 0);
    let y = Vec3::new(0i64, 1, 0);
    let z = Vec3::new(0i64, 0, 1);
    assert_eq!(x.cross(&y).0, [0, 0, 1]);
    assert_eq!(y.cross(&z).0, [1, 0, 0]);
    assert_eq!(z.cross(&x).0, [0, 1, 0]);
    assert_eq!(y.cross(&x).0, [0, 0, -1]);
}

#[test]
fn vec3_cross_of_two_vectors() {
    let a = Vec3::new(2i128, 3, 4);
    let b = Vec3::new(5i128, 6, 7);
    assert_eq!(a.cross(&b).0, [-3, 6, -3]);
    assert_eq!(a.cross(&a).0, [0, 0, 0]);
}
