use tracerust::scalar::Scalar;
use tracerust::texture::{CheckerTexture, SolidColor, Texture};
use tracerust::vec3::Vec3;

fn s(x: f64) -> Scalar {
    Scalar::from_bits(x.to_bits())
}

fn v(x: f64, y: f64, z: f64) -> Vec3 {
    Vec3(s(x), s(y), s(z))
}

fn cell(inv_scale: f64, point: [f64; 3]) -> (i32, i32, i32) {
    (
        (inv_scale * point[0]).floor() as i32,
        (inv_scale * point[1]).floor() as i32,
        (inv_scale * point[2]).floor() as i32,
    )
}

#[test]
fn solid_colour_is_the_same_everywhere() {
    let t = SolidColor::new(v(0.2, 0.3, 0.1));
    assert_eq!(t.value(s(0.), s(0.), v(1., 2., 3.)), v(0.2, 0.3, 0.1));
    assert_eq!(t.value(s(0.7), s(0.1), v(-9., 2., 1e9)), v(0.2, 0.3, 0.1));
}

#[test]
fn checker_alternates_from_cube_to_cube() {
    let inv_scale = 1. / 0.32;
    let t = CheckerTexture::from_colors(s(inv_scale), v(0.2, 0.3, 0.1), v(0.9, 0.9, 0.9));
    let even = Texture::Solid(SolidColor::new(v(0.2, 0.3, 0.1)));
    let odd = Texture::Solid(SolidColor::new(v(0.9, 0.9, 0.9)));
    let at = |p: [f64; 3]| {
        let (x, y, z) = cell(inv_scale, p);
        t.value(x, y, z)
    };
    assert_eq!(*at([0.1, 0.1, 0.1]), even);
    assert_eq!(*at([0.4, 0.1, 0.1]), odd);
    assert_eq!(*at([0.4, 0.4, 0.1]), even);
    assert_eq!(*at([0.4, 0.4, 0.4]), odd);
    assert_eq!(*at([-0.1, 0.1, 0.1]), odd);
    assert_eq!(*at([-0.1, -0.1, 0.1]), even);
}

#[test]
fn checker_parity_of_whole_coordinates() {
    let t = CheckerTexture::from_colors(s(1.), v(0., 0., 0.), v(1., 1., 1.));
    assert_eq!(*t.value(0, 0, 0), t.even);
    assert_eq!(*t.value(1, 0, 0), t.odd);
    assert_eq!(*t.value(-1, 0, 0), t.odd);
    assert_eq!(*t.value(-1, -1, 0), t.even);
    assert_eq!(*t.value(3, -4, 7), t.even);
    assert_eq!(*t.value(i32::MAX, i32::MAX, 1), t.odd);
    assert_eq!(*t.value(i32::MIN, i32::MIN, i32::MIN), t.even);
    assert_eq!(*t.value(i32::MAX, 1, 0), t.even);
}

#[test]
fn checker_of_checkers_hands_out_the_inner_texture() {
    let inner = CheckerTexture::from_colors(s(4.), v(0., 0., 0.), v(1., 1., 1.));
    let outer = CheckerTexture::new(
        s(1.),
        Texture::Checker(Box::new(inner)),
        Texture::Solid(SolidColor::new(v(0.5, 0.5, 0.5))),
    );
    assert_eq!(outer.inv_scale, s(1.));
    match outer.value(2, 0, 0) {
        Texture::Checker(c) => assert_eq!(*c.value(1, 0, 0), c.odd),
        _ => panic!("the even texture is the inner checker"),
    }
    assert_eq!(*outer.value(1, 0, 0), Texture::Solid(SolidColor::new(v(0.5, 0.5, 0.5))));
}
