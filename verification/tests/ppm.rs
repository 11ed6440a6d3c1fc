use tracerust::color::{displayed, intensity, linear_to_gamma, write_decimal, Color, Rgb, BRIGHTEST_BITS};
use tracerust::scalar::Scalar;
use tracerust::util::PPM;
use tracerust::vec3::Vec3;

fn s(x: f64) -> Scalar {
    Scalar::from_bits(x.to_bits())
}

fn f(x: Scalar) -> f64 {
    f64::from_bits(x.to_bits())
}

fn byte(channel: Scalar) -> u8 {
    (256. * f(displayed(channel, s(f(channel).sqrt())))) as u8
}

fn rgb(c: Color) -> Rgb {
    Rgb { r: byte(c.0), g: byte(c.1), b: byte(c.2) }
}

fn text(bytes: Vec<u8>) -> String {
    String::from_utf8(bytes).unwrap()
}

#[test]
fn write_to_stdout_works() {
    let c = Vec3(s(0.5), s(1.0), s(0.0));
    let mut out = Vec::new();
    let px = rgb(c);
    Color::write_io(px.r, px.g, px.b, &mut out);
    let out = String::from_utf8(out).unwrap();
    assert_eq!(out, "181 255 0\n");
}

#[test]
fn ppm_writer_works() {
    let mut ppm = PPM::new(2, 2);
    for c in [
        Color::new(s(0.0), s(1.0), s(0.0)),
        Color::new(s(0.0), s(0.5), s(0.0)),
        Color::new(s(0.0), s(0.0), s(0.0)),
        Color::new(s(0.0), s(0.0), s(0.0)),
    ]
    .iter()
    {
        ppm.push(rgb(*c));
    }

    let mut writer: Vec<u8> = vec![];
    ppm.write_to_buffer(&mut writer);

    let expected = "P3\n2 2\n255\n0 255 0\n0 181 0\n0 0 0\n0 0 0\n".as_bytes();
    assert_eq!(writer, expected)
}

#[test]
fn ppm_of_no_pixels_is_its_header() {
    let mut writer: Vec<u8> = vec![];
    PPM::new(0, 7).write_to_buffer(&mut writer);
    assert_eq!(text(writer), "P3\n0 7\n255\n");
    let mut writer: Vec<u8> = b"x".to_vec();
    PPM::new(1203, 0).write_to_buffer(&mut writer);
    assert_eq!(text(writer), "xP3\n1203 0\n255\n");
}

#[test]
fn ppm_writes_rows_from_the_top_and_only_the_raster() {
    let mut ppm = PPM::new(3, 2);
    for k in 0..8u8 {
        ppm.push(Rgb { r: k, g: 10 * k, b: 100 + k });
    }
    let mut writer: Vec<u8> = vec![];
    ppm.write_to_buffer(&mut writer);
    assert_eq!(
        text(writer),
        "P3\n3 2\n255\n0 0 100\n1 10 101\n2 20 102\n3 30 103\n4 40 104\n5 50 105\n"
    );
}

#[test]
fn decimal_has_no_leading_zeros() {
    for n in [0u32, 1, 9, 10, 11, 99, 100, 101, 255, 256, 1000, 65535, 4294967295].iter() {
        let mut out = Vec::new();
        write_decimal(&mut out, *n);
        assert_eq!(text(out), format!("{}", n));
    }
}

#[test]
fn pixel_line_for_every_width_of_number() {
    let mut out = Vec::new();
    Color::write_io(0, 9, 10, &mut out);
    Color::write_io(99, 100, 255, &mut out);
    assert_eq!(text(out), "0 9 10\n99 100 255\n");
}

#[test]
fn gamma_is_the_root_above_zero_and_zero_below() {
    assert_eq!(linear_to_gamma(s(0.25), s(0.5)), s(0.5));
    assert_eq!(linear_to_gamma(s(0.0), s(0.0)), s(0.0));
    assert_eq!(linear_to_gamma(s(-0.0), s(-0.0)), s(0.0));
    assert_eq!(linear_to_gamma(s(-4.0), s(f64::NAN)), s(0.0));
    assert_eq!(linear_to_gamma(s(f64::NAN), s(f64::NAN)), s(0.0));
}

#[test]
fn displayed_channels_lie_between_zero_and_the_brightest() {
    assert_eq!(BRIGHTEST_BITS, 0.999f64.to_bits());
    assert_eq!(intensity().min(), s(0.));
    assert_eq!(intensity().max(), s(0.999));
    assert_eq!(displayed(s(4.0), s(2.0)), s(0.999));
    assert_eq!(displayed(s(0.25), s(0.5)), s(0.5));
    assert_eq!(displayed(s(-1.0), s(f64::NAN)), s(0.0));
    assert_eq!(byte(s(1.0)), 255);
    assert_eq!(byte(s(100.0)), 255);
    assert_eq!(byte(s(0.5)), 181);
    assert_eq!(byte(s(0.0)), 0);
    assert_eq!(byte(s(-3.0)), 0);
}
