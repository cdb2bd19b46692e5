use ray_tracer::fixed::{div_euclid_i128, fxdiv, fxmul, isqrt, SCALE};
use ray_tracer::vector3::Vec3;

fn v(x: i64, y: i64, z: i64) -> Vec3 {
    Vec3 { x, y, z }
}

#[test]
fn euclid_division_rounds_toward_negative_infinity() {
    assert_eq!(div_euclid_i128(7, 2), 3);
    assert_eq!(div_euclid_i128(-7, 2), -4);
    assert_eq!(div_euclid_i128(7, -2), -3);
    assert_eq!(div_euclid_i128(-7, -2), 4);
    assert_eq!(div_euclid_i128(-8, 2), -4);
}

#[test]
fn integer_square_root_brackets() {
    assert_eq!(isqrt(0), 0);
    assert_eq!(isqrt(1), 1);
    assert_eq!(isqrt(24), 4);
    assert_eq!(isqrt(25), 5);
    assert_eq!(isqrt(26), 5);
    assert_eq!(isqrt((1u128 << 60) - 1), (1u128 << 30) - 1);
}

#[test]
fn fixed_point_products_and_quotients() {
    assert_eq!(fxmul(SCALE, SCALE), SCALE);
    assert_eq!(fxmul(2 * SCALE, 3 * SCALE), 6 * SCALE);
    assert_eq!(fxmul(SCALE / 2, SCALE / 2), SCALE / 4);
    assert_eq!(fxdiv(SCALE, 2 * SCALE), SCALE / 2);
    assert_eq!(fxdiv(3 * SCALE, -2 * SCALE), -3 * SCALE / 2);
}

#[test]
fn componentwise_arithmetic() {
    let a = v(SCALE, 2 * SCALE, -3 * SCALE);
    let b = v(4 * SCALE, -SCALE, SCALE);
    assert_eq!(a.add(b), v(5 * SCALE, SCALE, -2 * SCALE));
    assert_eq!(a.sub(b), v(-3 * SCALE, 3 * SCALE, -4 * SCALE));
    assert_eq!(a.neg(), v(-SCALE, -2 * SCALE, 3 * SCALE));
    assert_eq!(a.scale(2 * SCALE), v(2 * SCALE, 4 * SCALE, -6 * SCALE));
    assert_eq!(a.mul_elem(b), v(4 * SCALE, -2 * SCALE, -3 * SCALE));
    assert_eq!(a.div_scalar(2 * SCALE), v(SCALE / 2, SCALE, -3 * SCALE / 2));
}

#[test]
fn dot_cross_and_lengths() {
    let a = v(SCALE, 2 * SCALE, 3 * SCALE);
    let b = v(4 * SCALE, 5 * SCALE, 6 * SCALE);
    assert_eq!(a.dot(&b), 32 * SCALE);
    assert_eq!(a.cross(&b), v(-3 * SCALE, 6 * SCALE, -3 * SCALE));
    let c = v(3 * SCALE, 4 * SCALE, 0);
    assert_eq!(c.length_squared(), 25 * SCALE);
    assert_eq!(c.length(), 5 * SCALE);
}

#[test]
fn unit_vector_of_pythagorean_triple_is_exact() {
    let c = v(3 * SCALE, 4 * SCALE, 0);
    let u = c.unit_vector();
    assert_eq!(u, v(39321, 52428, 0));
    // length 1 within one fixed-point unit of epsilon
    assert_eq!(u.length(), SCALE - 1);
}

#[test]
fn unit_vector_of_diagonal_has_unit_length() {
    let d = v(SCALE, SCALE, 0);
    let u = d.unit_vector();
    assert_eq!(u, v(46341, 46341, 0));
    assert_eq!(u.length(), SCALE);
    assert_eq!(u.length_squared(), SCALE);
}

#[test]
fn unit_vector_of_axis_is_exact() {
    let u = v(0, 7 * SCALE, 0).unit_vector();
    assert_eq!(u, v(0, SCALE, 0));
    assert_eq!(u.length(), SCALE);
}
