use cowor::ciexyz::d65;
use cowor::Cielab;
use cowor::Ciexyz;
use cowor::Srgb;

const S: i64 = 10_000_000;

#[test]
fn ciexyz_new() {
    let a = Ciexyz::from_array([S / 10, 2 * S / 10, 3 * S / 10]);
    let b = Ciexyz::new(S / 10, 2 * S / 10, 3 * S / 10).unwrap();
    let c = Ciexyz::new(-S / 10, 2 * S / 10, 3 * S / 10);
    let d = Ciexyz::new(S / 10, 2 * S, 3 * S / 10);
    assert_eq!(a, b);
    assert!(c.is_none());
    assert!(d.is_none());
}

#[test]
fn ciexyz_x() {
    let a = Ciexyz::from_array([0, 2000000, 3000000]);
    assert_eq!(a.x(), 0);
    let b = Ciexyz::from_array([1000000, 2000000, 3000000]);
    assert_eq!(b.x(), 1000000);
}

#[test]
fn ciexyz_y() {
    let a = Ciexyz::from_array([1000000, 0, 3000000]);
    assert_eq!(a.y(), 0);
    let b = Ciexyz::from_array([1000000, 2000000, 3000000]);
    assert_eq!(b.y(), 2000000);
}

#[test]
fn ciexyz_z() {
    let a = Ciexyz::from_array([1000000, 2000000, 0]);
    assert_eq!(a.z(), 0);
    let b = Ciexyz::from_array([1000000, 2000000, 3000000]);
    assert_eq!(b.z(), 3000000);
}

#[test]
fn ciexyz_from_srgb_precision() {
    let ciexyz_black = Ciexyz::new(0, 0, 0).unwrap();
    let srgb_black = Srgb::new(0, 0, 0);
    assert_eq!(ciexyz_black, Ciexyz::from_srgb(srgb_black));
}

#[test]
fn ciexyz_from_cielab_precision() {
    let ciexyz_black = Ciexyz::new(0, 0, 0).unwrap();
    let cielab_black = Cielab::new(0, 0, 0).unwrap();
    assert_eq!(ciexyz_black, Ciexyz::from_cielab(cielab_black));
}

#[test]
fn ciexyz_d65() {
    assert_eq!(d65(), Ciexyz::from_srgb(Srgb::new(255, 255, 255)));
}

#[test]
fn d65_components() {
    let w = d65();
    assert_eq!(w.x(), 9504559);
    assert_eq!(w.y(), S);
    assert_eq!(w.z(), 10890578);
}

#[test]
fn ciexyz_validation_boundaries() {
    assert!(Ciexyz::new(0, S, 0).is_some());
    assert!(Ciexyz::new(0, S + 1, 0).is_none());
    assert!(Ciexyz::new(0, -1, 0).is_none());
    assert!(Ciexyz::new(-1, 0, 0).is_none());
    assert!(Ciexyz::new(0, 0, -1).is_none());
    assert!(Ciexyz::try_from_array([1000000, 2000000, 3000000]).is_ok());
    assert!(Ciexyz::try_from_array([1000000, 2 * S, 3000000]).is_err());
}

#[test]
fn ciexyz_array_round_trip() {
    let c = Ciexyz::new(1000000, 2000000, 3000000).unwrap();
    assert_eq!(c.to_array(), [1000000, 2000000, 3000000]);
    assert_eq!(Ciexyz::from_array(c.to_array()), c);
}

#[test]
fn d65_to_srgb_is_white() {
    let w = Srgb::try_from_ciexyz(d65()).unwrap();
    assert_eq!(w.red_as_u8(), 255);
    assert_eq!(w.green_as_u8(), 255);
    assert_eq!(w.blue_as_u8(), 255);
}
