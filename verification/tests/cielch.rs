use cowor::Cielab;
use cowor::Cielch;
use cowor::OutOfSpecification;
use cowor::Srgb;

const S: i64 = 10_000_000;

// 30 and 60 degrees in radians, at the component scale
const RAD30: i64 = 5_235_988;
const RAD60: i64 = 10_471_976;

#[test]
fn cielch_new() {
    let a = Cielch::from_array([10 * S, 20 * S, RAD30]);
    let b = Cielch::new(10 * S, 20 * S, RAD30).unwrap();
    let c = Cielch::new(-10 * S, 20 * S, RAD30);
    let d = Cielch::new(110 * S, 20 * S, RAD30);
    assert_eq!(a, b);
    assert!(c.is_none());
    assert!(d.is_none());
}

#[test]
fn cielch_lightness() {
    let a = Cielch::from_array([0, 20 * S, RAD30]);
    assert_eq!(a.lightness(), 0);
    let b = Cielch::from_array([10 * S, 20 * S, RAD30]);
    assert_eq!(b.lightness(), 10 * S);
}

#[test]
fn cielch_chroma() {
    let a = Cielch::from_array([10 * S, 0, RAD30]);
    assert_eq!(a.chroma(), 0);
    let b = Cielch::from_array([10 * S, 20 * S, RAD30]);
    assert_eq!(b.chroma(), 20 * S);
}

#[test]
fn cielch_hue() {
    let a = Cielch::from_array([10 * S, 20 * S, 0]);
    assert_eq!(a.hue(), 0);
    let b = Cielch::from_array([10 * S, 20 * S, RAD30]);
    assert_eq!(b.hue(), RAD30);
}

#[test]
fn cielch_from_cielab_precision() {
    let cielch_black = Cielch::new(0, 0, 0).unwrap();
    let cielab_black = Cielab::new(0, 0, 0).unwrap();
    assert_eq!(cielch_black, Cielch::from_cielab(cielab_black));
}

#[test]
fn cielch_degenerate_hue_equality() {
    let a = Cielch::new(10 * S, 20 * S, RAD30).unwrap();
    let b = Cielch::new(10 * S, 0, RAD30).unwrap();
    let c = Cielch::new(10 * S, 0, RAD60).unwrap();
    assert_ne!(a, b);
    assert_eq!(b, c);
    assert_eq!(a, a);
}

#[test]
fn cielch_validation_boundaries() {
    assert!(Cielch::new(0, 0, -3 * S).is_some());
    assert!(Cielch::new(10 * S, -S, RAD30).is_none());
    assert!(Cielch::new(100 * S + 1, 0, 0).is_none());
    assert!(Cielch::try_from_array([10 * S, 20 * S, RAD30]).is_ok());
    let e = Cielch::try_from_array([10 * S, -1, RAD30]);
    assert!(e.is_err());
    assert_eq!(e.unwrap_err(), OutOfSpecification);
    assert_eq!(
        OutOfSpecification.message(),
        "invalid color according to the specifications of its color space"
    );
}

#[test]
fn cielch_gamut_boundary() {
    let gray = Cielch::new(50 * S, 0, 0).unwrap();
    assert!(Srgb::try_from_cielch(gray).is_ok());
    let loud = Cielch::new(100 * S, 100 * S, 0).unwrap();
    assert!(Srgb::try_from_cielch(loud).is_err());
}

#[test]
fn cielch_array_round_trip() {
    let v = Cielch::new(10 * S, 20 * S, RAD30).unwrap();
    assert_eq!(v.to_array(), [10 * S, 20 * S, RAD30]);
    let w = Cielch::from_array(v.to_array());
    assert_eq!(w, v);
}
