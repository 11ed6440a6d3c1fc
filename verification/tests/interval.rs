use tracerust::scalar::Scalar;
use tracerust::util::Interval;

fn s(x: f64) -> Scalar {
    Scalar::from_bits(x.to_bits())
}

fn iv(min: f64, max: f64) -> Interval {
    Interval { min: s(min), max: s(max) }
}

#[test]
fn contains_works() {
    let intvl = Interval { min: s(-2.), max: s(3.) };
    assert!(intvl.contains(s(3.0)));
    assert!(!intvl.contains(s(4.)));
}

#[test]
fn surrounds_works() {
    let intvl = Interval { min: s(-2.), max: s(3.) };
    assert!(intvl.surrounds(s(2.)));
    assert!(!intvl.surrounds(s(3.0)));
}

#[test]
fn empty_and_universe() {
    assert!(!Interval::empty().contains(s(0.)));
    assert!(Interval::universe().contains(s(0.)));
}

#[test]
fn union_of_overlapping_intervals() {
    assert_eq!(Interval::from_intervals(&iv(-2., 3.), &iv(0., 5.)), iv(-2., 5.));
    assert_eq!(Interval::from_intervals(&iv(0., 5.), &iv(-2., 3.)), iv(-2., 5.));
}

#[test]
fn union_with_empty_is_the_other() {
    let x = iv(-2., 3.);
    assert_eq!(Interval::from_intervals(&Interval::empty(), &x), x);
    assert_eq!(Interval::from_intervals(&x, &Interval::empty()), x);
    let odd = Interval { min: s(f64::NAN), max: s(7.) };
    assert_eq!(Interval::from_intervals(&Interval::empty(), &odd), odd);
}

#[test]
fn union_of_disjoint_intervals_spans_the_gap() {
    assert_eq!(Interval::from_intervals(&iv(-5., -4.), &iv(1., 2.)), iv(-5., 2.));
}

#[test]
fn union_of_nested_intervals_is_the_outer() {
    assert_eq!(Interval::from_intervals(&iv(-5., 5.), &iv(1., 2.)), iv(-5., 5.));
}

#[test]
fn clamp_projects_into_the_range() {
    let intvl = iv(0., 0.999);
    assert_eq!(intvl.clamp(s(-3.)), s(0.));
    assert_eq!(intvl.clamp(s(2.)), s(0.999));
    assert_eq!(intvl.clamp(s(0.25)), s(0.25));
    assert_eq!(intvl.clamp(s(0.999)), s(0.999));
}

#[test]
fn clamp_is_that_of_the_hardware() {
    let xs = [-1.0, 0.0, -0.0, 0.3, 0.999, 1.0, f64::INFINITY, f64::NEG_INFINITY];
    for &x in xs.iter() {
        let expected = if x < 0.0 {
            0.0
        } else if x > 0.999 {
            0.999
        } else {
            x
        };
        assert_eq!(iv(0., 0.999).clamp(s(x)).to_bits(), f64::to_bits(expected));
    }
}

#[test]
fn clamp_leaves_nan_alone() {
    let intvl = iv(0., 1.);
    assert!(intvl.clamp(s(f64::NAN)).is_nan());
}

#[test]
fn empty_intervals_hold_nothing() {
    let xs = [-1e300, -1.0, 0.0, 1.0, 1e300, f64::INFINITY, f64::NEG_INFINITY, f64::NAN];
    for &x in xs.iter() {
        assert!(!Interval::empty().contains(s(x)));
        assert!(!Interval::empty().surrounds(s(x)));
        assert!(!iv(3., -2.).contains(s(x)));
        assert!(!iv(3., -2.).surrounds(s(x)));
    }
}

#[test]
fn universe_contains_infinities_but_does_not_surround_them() {
    assert!(Interval::universe().contains(s(f64::INFINITY)));
    assert!(!Interval::universe().surrounds(s(f64::INFINITY)));
    assert!(Interval::universe().surrounds(s(1e308)));
    assert!(!Interval::universe().contains(s(f64::NAN)));
}

#[test]
fn default_is_empty() {
    assert_eq!(Interval::default(), Interval::empty());
    assert_eq!(Interval::empty(), iv(f64::INFINITY, f64::NEG_INFINITY));
    assert_eq!(Interval::universe(), iv(f64::NEG_INFINITY, f64::INFINITY));
}

#[test]
fn new_and_getters() {
    let i = Interval::new(s(1.), s(2.));
    assert_eq!(i.min(), s(1.));
    assert_eq!(i.max(), s(2.));
}
