use cowor::ciexyz::d65;
use cowor::Cielab;
use cowor::Cielch;
use cowor::Ciexyz;
use cowor::OutOfGamut;
use cowor::Srgb;

const S: i64 = 10_000_000;

#[test]
fn cielab_new() {
    let a = Cielab::from_array([10 * S, 20 * S, 30 * S]);
    let b = Cielab::new(10 * S, 20 * S, 30 * S).unwrap();
    let c = Cielab::new(-10 * S, 20 * S, 30 * S);
    let d = Cielab::new(110 * S, 20 * S, 30 * S);
    assert_eq!(a, b);
    assert!(c.is_none());
    assert!(d.is_none());
}

#[test]
fn cielab_lightness() {
    let a = Cielab::from_array([0, 20 * S, 30 * S]);
    assert_eq!(a.lightness(), 0);
    let b = Cielab::from_array([10 * S, 20 * S, 30 * S]);
    assert_eq!(b.lightness(), 10 * S);
}

#[test]
fn cielab_a() {
    let a = Cielab::from_array([10 * S, 0, 30 * S]);
    assert_eq!(a.a(), 0);
    let b = Cielab::from_array([10 * S, 20 * S, 30 * S]);
    assert_eq!(b.a(), 20 * S);
}

#[test]
fn cielab_b() {
    let a = Cielab::from_array([10 * S, 20 * S, 0]);
    assert_eq!(a.b(), 0);
    let b = Cielab::from_array([10 * S, 20 * S, 30 * S]);
    assert_eq!(b.b(), 30 * S);
}

#[test]
fn cielab_from_ciexyz_precision() {
    let cielab_black = Cielab::new(0, 0, 0).unwrap();
    let ciexyz_black = Ciexyz::new(0, 0, 0).unwrap();
    assert_eq!(cielab_black, Cielab::from_ciexyz(ciexyz_black));
}

#[test]
fn cielab_from_cielch_precision() {
    let cielab_black = Cielab::new(0, 0, 0).unwrap();
    let cielch_black = Cielch::new(0, 0, 0).unwrap();
    assert_eq!(cielab_black, Cielab::from_cielch(cielch_black));
}

#[test]
fn cielab_from_d65() {
    assert_eq!(Cielab::new(100 * S, 0, 0).unwrap(), Cielab::from_ciexyz(d65()));
}

#[test]
fn cielab_validation_boundaries() {
    assert!(Cielab::new(100 * S, 20 * S, 30 * S).is_some());
    // 100.0001 in fixed-point steps
    assert!(Cielab::new(100 * S + 1000, 20 * S, 30 * S).is_none());
    assert!(Cielab::new(-1, 0, 0).is_none());
    assert!(Cielab::try_from_array([50 * S, -20 * S, 3 * S]).is_ok());
    assert!(Cielab::try_from_array([101 * S, 0, 0]).is_err());
    let e: OutOfGamut = OutOfGamut;
    assert_eq!(e.message(), "color is out of gamut");
}

#[test]
fn cielab_gamut_boundary() {
    // a midscale gray is displayable
    let gray = Cielab::new(50 * S, 0, 0).unwrap();
    assert!(Srgb::try_from_cielab(gray).is_ok());
    // full lightness with strong red opponent is not
    let loud = Cielab::new(100 * S, 100 * S, 0).unwrap();
    let e = Srgb::try_from_cielab(loud);
    assert!(e.is_err());
    assert_eq!(e.unwrap_err(), OutOfGamut);
}

#[test]
fn cielab_gray_conversion_value() {
    let gray = Cielab::new(50 * S, 0, 0).unwrap();
    let s = Srgb::try_from_cielab(gray).unwrap();
    assert_eq!(s.red_as_u8(), 119);
    assert_eq!(s.green_as_u8(), 119);
    assert_eq!(s.blue_as_u8(), 119);
}

#[test]
fn cielab_array_round_trip() {
    let v = Cielab::new(10 * S, -20 * S, 30 * S).unwrap();
    assert_eq!(v.to_array(), [10 * S, -20 * S, 30 * S]);
    assert_eq!(Cielab::from_array(v.to_array()), v);
}
