use sdflit::vec3::{
    dot, floor_div, interpolate, isqrt, maximum, minimum, norm, normalize, Vec3, FRAC_ONE,
};

#[test]
fn dot_two() {
    let v1 = Vec3::new(1i64, 2, 3);
    let v2 = Vec3::new(4i64, 5, 6);
    assert_eq!(dot(v1, v2), 32);
}

#[test]
fn minimum_two() {
    let v1 = Vec3::new(1i64, 2, 3);
    let v2 = Vec3::new(4i64, 5, 6);
    assert_eq!(dot(v1, v2), 32);
}

#[test]
fn componentwise_min_max() {
    let a = Vec3::new(1i64, 7, -3);
    let b = Vec3::new(4i64, 5, -6);
    assert_eq!(minimum(a, b), Vec3::new(1, 5, -6));
    assert_eq!(maximum(a, b), Vec3::new(4, 7, -3));
}

#[test]
fn method_forms() {
    let a = Vec3::new(1i64, 2, 3);
    assert_eq!(a.dot(Vec3::new(4, 5, 6)), 32);
    assert_eq!(a.dot2(), 14);
    assert_eq!(a.add(Vec3::new(1, 1, 1)), Vec3::new(2, 3, 4));
    assert_eq!(a.sub(Vec3::new(1, 1, 1)), Vec3::new(0, 1, 2));
    assert_eq!(a.add_scalar(2), Vec3::new(3, 4, 5));
    assert_eq!(a.sub_scalar(2), Vec3::new(-1, 0, 1));
}

#[test]
fn norm_rounds_down() {
    assert_eq!(norm(Vec3::new(3, 4, 0)), 5);
    assert_eq!(norm(Vec3::new(1, 1, 0)), 1);
    assert_eq!(norm(Vec3::new(0, 0, 0)), 0);
    assert_eq!(Vec3::new(2i64, 3, 6).norm(), 7);
}

#[test]
fn integer_square_root() {
    assert_eq!(isqrt(0), 0);
    assert_eq!(isqrt(15), 3);
    assert_eq!(isqrt(16), 4);
    assert_eq!(isqrt(1 << 100), 1 << 50);
}

#[test]
fn interpolate_ends_and_middle() {
    let a = Vec3::new(100i64, 0, -40);
    let b = Vec3::new(0i64, 100, 40);
    assert_eq!(interpolate(a, b, FRAC_ONE), a);
    assert_eq!(interpolate(a, b, 0), b);
    assert_eq!(interpolate(a, b, FRAC_ONE / 2), Vec3::new(50, 50, 0));
    assert_eq!(a.interpolate(b, FRAC_ONE / 4), Vec3::new(25, 75, 20));
    // beyond the two ends the formula extrapolates
    assert_eq!(interpolate(a, b, 2 * FRAC_ONE), Vec3::new(200, -100, -120));
    assert_eq!(interpolate(a, b, -FRAC_ONE), Vec3::new(-100, 200, 120));
}

#[test]
fn floor_division_rounds_down() {
    assert_eq!(floor_div(7, 2), 3);
    assert_eq!(floor_div(-7, 2), -4);
    assert_eq!(floor_div(-8, 2), -4);
}

#[test]
fn componentwise_product_and_scale() {
    let a = Vec3::new(1i64, -2, 3);
    assert_eq!(a.mul(Vec3::new(4, 5, -6)), Vec3::new(4, -10, -18));
    assert_eq!(a.scale(3), Vec3::new(3, -6, 9));
}

#[test]
fn vector_from_list() {
    assert_eq!(Vec3::try_from_vec(&vec![1i64, 2, 3]), Some(Vec3::new(1, 2, 3)));
    assert_eq!(Vec3::try_from_vec(&vec![1i64, 2]), None);
    assert_eq!(Vec3::try_from_vec(&vec![1i64, 2, 3, 4]), None);
}

#[test]
fn normalize_to_fraction_length() {
    assert_eq!(normalize(Vec3::new(3, 4, 0)), Vec3::new(39321, 52428, 0));
    assert_eq!(normalize(Vec3::new(0, 0, -2)), Vec3::new(0, 0, -FRAC_ONE));
    assert_eq!(normalize(Vec3::new(0, 0, 0)), Vec3::new(0, 0, 0));
    assert_eq!(Vec3::new(5i64, 0, 0).normalize(), Vec3::new(FRAC_ONE, 0, 0));
}

#[test]
fn division_rounds_down() {
    assert_eq!(Vec3::new(7i64, -7, 8).div_scalar(2), Vec3::new(3, -4, 4));
    assert_eq!(Vec3::new(7i64, -7, 9).div(Vec3::new(2, 3, 4)), Vec3::new(3, -3, 2));
}
