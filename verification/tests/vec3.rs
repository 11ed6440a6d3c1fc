use tracerust::scalar::Scalar;
use tracerust::vec3::{Vec3, NEAR_ZERO_BITS, SHORTEST_SQUARED_BITS};

fn s(x: f64) -> Scalar {
    Scalar::from_bits(x.to_bits())
}

fn v(x: f64, y: f64, z: f64) -> Vec3 {
    Vec3(s(x), s(y), s(z))
}

#[test]
fn neg_works() {
    let w = v(1.0, -2.0, 3.0);
    assert_eq!(w.neg(), v(-1.0, 2.0, -3.0))
}

#[test]
fn components() {
    let w = v(1.0, -2.0, 3.0);
    assert_eq!(w.x(), s(1.0));
    assert_eq!(w.y(), s(-2.0));
    assert_eq!(w.z(), s(3.0));
}

#[test]
fn vector_constants_are_the_patterns_they_name() {
    assert_eq!(NEAR_ZERO_BITS, 1e-8f64.to_bits());
    assert_eq!(SHORTEST_SQUARED_BITS, 1e-160f64.to_bits());
}

#[test]
fn near_zero_needs_all_three_components_small() {
    assert!(v(0., 0., 0.).near_zero());
    assert!(v(9e-9, -9e-9, -0.0).near_zero());
    assert!(!v(1e-8, 0., 0.).near_zero());
    assert!(!v(0., -1e-8, 0.).near_zero());
    assert!(!v(0., 0., 1.).near_zero());
    assert!(!v(f64::NAN, 0., 0.).near_zero());
}

#[test]
fn near_zero_is_that_of_the_hardware() {
    let xs = [0.0, 1e-9, -1e-9, 1e-8, -1e-8, 9.999999e-9, 1.0, -1.0, f64::NAN];
    for &x in xs.iter() {
        for &y in xs.iter() {
            let expected = x.abs() < 1e-8 && y.abs() < 1e-8 && 0.0f64.abs() < 1e-8;
            assert_eq!(v(x, y, 0.0).near_zero(), expected);
        }
    }
}

#[test]
fn unit_ball_keeps_what_can_be_normalised() {
    assert!(Vec3::in_unit_ball(s(1.0)));
    assert!(Vec3::in_unit_ball(s(0.5)));
    assert!(Vec3::in_unit_ball(s(1e-160)));
    assert!(!Vec3::in_unit_ball(s(9e-161)));
    assert!(!Vec3::in_unit_ball(s(0.0)));
    assert!(!Vec3::in_unit_ball(s(1.0000000000000002)));
    assert!(!Vec3::in_unit_ball(s(f64::NAN)));
}

#[test]
fn hemisphere_keeps_vectors_that_face_the_normal() {
    let w = v(0.6, 0.0, 0.8);
    assert_eq!(Vec3::random_on_hemisphere(w, s(0.8)), w);
    assert_eq!(Vec3::random_on_hemisphere(w, s(-0.8)), v(-0.6, -0.0, -0.8));
    assert_eq!(Vec3::random_on_hemisphere(w, s(0.0)), v(-0.6, -0.0, -0.8));
}
