//! Round-trip and whole-chain behavior across the conversion graph.

use cowor::Cielab;
use cowor::Cielch;
use cowor::Ciexyz;
use cowor::Srgb;

const S: i64 = 10_000_000;

#[test]
fn black_chain_is_exact() {
    let srgb = Srgb::new(0, 0, 0);
    let xyz = Ciexyz::from_srgb(srgb);
    assert_eq!(xyz, Ciexyz::new(0, 0, 0).unwrap());
    let lab = Cielab::from_ciexyz(xyz);
    assert_eq!(lab, Cielab::new(0, 0, 0).unwrap());
    let lch = Cielch::from_cielab(lab);
    assert_eq!(lch, Cielch::new(0, 0, 0).unwrap());
    // and all the way back
    let lab_back = Cielab::from_cielch(lch);
    assert_eq!(lab_back, lab);
    let xyz_back = Ciexyz::from_cielab(lab_back);
    assert_eq!(xyz_back, xyz);
    let srgb_back = Srgb::try_from_ciexyz(xyz_back).unwrap();
    assert_eq!(srgb_back, srgb);
}

#[test]
fn white_chain_is_exact() {
    let white = Srgb::new(255, 255, 255);
    let xyz = Ciexyz::from_srgb(white);
    assert_eq!(xyz, cowor::ciexyz::d65());
    let lab = Cielab::from_ciexyz(xyz);
    assert_eq!(lab, Cielab::new(100 * S, 0, 0).unwrap());
    let xyz_back = Ciexyz::from_cielab(lab);
    assert_eq!(xyz_back, xyz);
    assert_eq!(Srgb::try_from_ciexyz(xyz_back).unwrap(), white);
}

#[test]
fn srgb_round_trip_sampled_cube() {
    for r in (0..=255u8).step_by(51) {
        for g in (0..=255u8).step_by(51) {
            for b in (0..=255u8).step_by(51) {
                let s = Srgb::new(r, g, b);
                let back = Srgb::try_from_ciexyz(Ciexyz::from_srgb(s)).unwrap();
                assert_eq!(s, back, "round trip failed for ({r}, {g}, {b})");
            }
        }
    }
}

#[test]
fn srgb_round_trip_through_cielab() {
    for v in [0u8, 13, 76, 128, 191, 255] {
        let s = Srgb::new(v, 76, 204);
        let lab = Cielab::from_srgb(s);
        let back = Srgb::try_from_cielab(lab).unwrap();
        assert_eq!(s, back, "round trip through CIELAB failed for value {v}");
    }
}

#[test]
fn srgb_round_trip_through_cielch() {
    for v in [0u8, 13, 76, 128, 191, 255] {
        let s = Srgb::new(191, v, 25);
        let lch = Cielch::from_srgb(s);
        assert!(lch.chroma() >= 0);
        let back = Srgb::try_from_cielch(lch).unwrap();
        assert_eq!(s, back, "round trip through CIELCh failed for value {v}");
    }
}

#[test]
fn lab_lch_round_trip_within_tolerance() {
    // half a thousandth in component units
    let tol = 5000i64;
    for (l, a, b) in [
        (50 * S, 30 * S, -40 * S),
        (10 * S, -80 * S, 15 * S),
        (99 * S, 120 * S, 110 * S),
        (0, -3 * S, -4 * S),
        (75 * S, 1000, -1000),
    ] {
        let lab = Cielab::new(l, a, b).unwrap();
        let lch = Cielch::from_cielab(lab);
        let back = Cielab::from_cielch(lch);
        assert_eq!(back.lightness(), l);
        assert!((back.a() - a).abs() <= tol, "a: {} vs {}", back.a(), a);
        assert!((back.b() - b).abs() <= tol, "b: {} vs {}", back.b(), b);
    }
}

#[test]
fn lab_lch_round_trip_exact_on_neutral_branch() {
    let lab = Cielab::new(50 * S, 30 * S, 0).unwrap();
    let lch = Cielch::from_cielab(lab);
    assert_eq!(lch.chroma(), 30 * S);
    assert_eq!(lch.hue(), 0);
    assert_eq!(Cielab::from_cielch(lch), lab);
}

#[test]
fn chroma_is_plane_magnitude() {
    // a 3-4-5 triangle in the opponent plane
    let lab = Cielab::new(40 * S, 30 * S, 40 * S).unwrap();
    let lch = Cielch::from_cielab(lab);
    assert_eq!(lch.chroma(), 50 * S);
}

#[test]
fn out_of_gamut_xyz_rejected() {
    // will not land in the sRGB color gamut
    let invalid = Ciexyz::new(4 * S, S, 6 * S).unwrap();
    assert!(Srgb::try_from_ciexyz(invalid).is_err());
    // will land in it
    let valid = Ciexyz::new(S / 2, S / 2, S / 2).unwrap();
    assert!(Srgb::try_from_ciexyz(valid).is_ok());
}

#[test]
fn primary_colors_match_reference() {
    // reference values computed from the real-valued CIE transforms
    // with the same exact rational matrix, in fixed-point steps
    let cases: [(u8, u8, u8, i64, i64, i64); 4] = [
        (255, 0, 0, 532371156, 800901135, 672032635),
        (0, 255, 0, 877355191, -861815969, 831866203),
        (0, 0, 255, 323008729, 791952703, -1078554655),
        (123, 201, 55, 737132747, -472342567, 616035148),
    ];
    // two thousandths in component units
    let tol = 20000i64;
    for (r, g, b, el, ea, eb) in cases {
        let lab = Cielab::from_srgb(Srgb::new(r, g, b));
        assert!((lab.lightness() - el).abs() <= tol, "L of ({r},{g},{b}): {}", lab.lightness());
        assert!((lab.a() - ea).abs() <= tol, "a of ({r},{g},{b}): {}", lab.a());
        assert!((lab.b() - eb).abs() <= tol, "b of ({r},{g},{b}): {}", lab.b());
    }
}

#[test]
fn primary_colors_polar_form_matches_reference() {
    let lch = Cielch::from_srgb(Srgb::new(255, 0, 0));
    let tol = 20000i64;
    assert!((lch.lightness() - 532371156).abs() <= tol);
    assert!((lch.chroma() - 1045500115).abs() <= tol);
    assert!((lch.hue() - 6981293).abs() <= tol);
    let blue = Cielch::from_srgb(Srgb::new(0, 0, 255));
    assert!((blue.chroma() - 1338084163).abs() <= tol);
    assert!((blue.hue() - -9374372).abs() <= tol);
}
