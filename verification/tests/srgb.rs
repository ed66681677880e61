use cowor::srgb::gamma_compress;
use cowor::srgb::gamma_expand;
use cowor::Ciexyz;
use cowor::Srgb;

const S: i64 = 10_000_000;

#[test]
fn srgb_new() {
    let a = Srgb::from_array([0, S, 0]);
    let b = Srgb::new(0x00, 0xff, 0x00);
    assert_eq!(a, b);
}

#[test]
fn srgb_red() {
    let a = Srgb::from_array([0, S, 0]);
    assert_eq!(a.red(), 0);
    let b = Srgb::from_array([S, S, 0]);
    assert_eq!(b.red(), S);
}

#[test]
fn srgb_green() {
    let a = Srgb::from_array([0, 0, 0]);
    assert_eq!(a.green(), 0);
    let b = Srgb::from_array([0, S, 0]);
    assert_eq!(b.green(), S);
}

#[test]
fn srgb_blue() {
    let a = Srgb::from_array([0, S, 0]);
    assert_eq!(a.blue(), 0);
    let b = Srgb::from_array([0, S, S]);
    assert_eq!(b.blue(), S);
}

#[test]
fn srgb_red_as_u8() {
    let a = Srgb::from_array([0, S, 0]);
    assert_eq!(a.red_as_u8(), 0x00);
    let b = Srgb::from_array([S, S, 0]);
    assert_eq!(b.red_as_u8(), 0xff);
}

#[test]
fn srgb_green_as_u8() {
    let a = Srgb::from_array([0, 0, 0]);
    assert_eq!(a.green_as_u8(), 0x00);
    let b = Srgb::from_array([0, S, 0]);
    assert_eq!(b.green_as_u8(), 0xff);
}

#[test]
fn srgb_blue_as_u8() {
    let a = Srgb::from_array([0, S, 0]);
    assert_eq!(a.blue_as_u8(), 0x00);
    let b = Srgb::from_array([0, S, S]);
    assert_eq!(b.blue_as_u8(), 0xff);
}

#[test]
fn srgb_linear_red() {
    let a = Srgb::from_array([0, S, 0]);
    assert_eq!(a.linear_red(), 0);
    let b = Srgb::from_array([S, S, 0]);
    assert_eq!(b.linear_red(), S);
}

#[test]
fn srgb_linear_green() {
    let a = Srgb::from_array([0, 0, 0]);
    assert_eq!(a.linear_green(), 0);
    let b = Srgb::from_array([0, S, 0]);
    assert_eq!(b.linear_green(), S);
}

#[test]
fn srgb_linear_blue() {
    let a = Srgb::from_array([0, S, 0]);
    assert_eq!(a.linear_blue(), 0);
    let b = Srgb::from_array([0, S, S]);
    assert_eq!(b.linear_blue(), S);
}

#[test]
fn srgb_from_ciexyz_precision() {
    let srgb_black = Srgb::new(0x00, 0x00, 0x00);
    let ciexyz_black = Ciexyz::new(0, 0, 0).unwrap();
    assert_eq!(srgb_black, Srgb::try_from_ciexyz(ciexyz_black).unwrap());

    let srgb_white = Srgb::new(0xff, 0xff, 0xff);
    let ciexyz_white = Srgb::try_from_ciexyz(cowor::ciexyz::d65()).unwrap();
    assert_eq!(srgb_white, ciexyz_white);
}

#[test]
fn gamma_round_trip_on_channel() {
    let v = Srgb::new(10, 20, 30);
    assert_eq!(gamma_expand(v.red()), v.linear_red());
    assert_eq!(gamma_expand(v.green()), v.linear_green());
    assert_eq!(gamma_expand(v.blue()), v.linear_blue());
}

#[test]
fn gamma_curves_against_reference() {
    // expected values are the rounded IEC 61966-2-1 curves at 1e-7 steps
    for (x, e) in [
        (0i64, 0i64),
        (404500, 31308),
        (5000000, 2140411),
        (10000000, 10000000),
    ] {
        let got = gamma_expand(x);
        assert!((got - e).abs() <= 3, "expand({x}) = {got}, expected {e}");
    }
    for (x, e) in [
        (0i64, 0i64),
        (31308, 404500),
        (2140411, 5000000),
        (10000000, 10000000),
    ] {
        let got = gamma_compress(x);
        assert!((got - e).abs() <= 3, "compress({x}) = {got}, expected {e}");
    }
}

#[test]
fn srgb_equality_is_quantized() {
    // raw channels differ by less than half an 8-bit quantum
    let a = Srgb::from_array([5000000, 0, 0]);
    let b = Srgb::from_array([5000100, 0, 0]);
    assert_eq!(a, b);
    // and differ across a quantum boundary
    let c = Srgb::from_array([5100000, 0, 0]);
    assert_ne!(a, c);
}

#[test]
fn byte_round_trip_all_values() {
    for v in 0..=255u8 {
        let s = Srgb::new(v, v, v);
        assert_eq!(s.red_as_u8(), v);
        assert_eq!(s.green_as_u8(), v);
        assert_eq!(s.blue_as_u8(), v);
    }
}

#[test]
fn srgb_round_trip_through_ciexyz() {
    let mut values: Vec<u8> = vec![0, 1, 2, 17, 127, 128, 200, 253, 254, 255];
    values.dedup();
    for &r in &values {
        for &g in &values {
            for &b in &values {
                let s = Srgb::new(r, g, b);
                let back = Srgb::try_from_ciexyz(Ciexyz::from_srgb(s)).unwrap();
                assert_eq!(s, back, "round trip failed for ({r}, {g}, {b})");
            }
        }
    }
}
