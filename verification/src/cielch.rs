//! The CIELCh color space: the polar restatement of CIELAB, with
//! lightness, chroma (radial magnitude) and hue (angle in radians at
//! the component scale).
//!
//! When chroma is zero the hue is mathematically undefined — the
//! point lies on the neutral axis — so equality collapses such
//! values: two colors with zero chroma are equal whenever their
//! lightnesses are, whatever hues they store.

use crate::cielab::lab_of_xyz;
use crate::cielab::Cielab;
use crate::ciexyz::xyz_of_srgb;
use crate::ciexyz::Ciexyz;
use crate::error::OutOfSpecification;
use crate::fixed::isqrt;
use crate::fixed::sq;
use crate::fixed::sqrt;
use crate::fixed::SCALE;
use crate::srgb::Srgb;
use crate::trig::atan2_fx;
use crate::trig::atan2_fx_spec;
use vstd::prelude::*;

verus! {

/// A color in the CIELCh color space: lightness in `[0, 100]` at the
/// component scale, nonnegative chroma, hue in radians at the
/// component scale.
#[derive(Clone, Copy, Debug)]
pub struct Cielch {
    pub l: i64,
    pub c: i64,
    pub h: i64,
}

/// The CIELCh color of a CIELAB color: chroma is the floor of the
/// exact magnitude `sqrt(a² + b²)` (exact because the components'
/// scales cancel), hue is the fixed-point arctangent of `(a, b)`,
/// lightness unchanged.
pub open spec fn lch_of_lab(l: int, a: int, b: int) -> (int, int, int) {
    (l, sqrt(a * a + b * b), atan2_fx_spec(b, a))
}

impl Cielch {
    /// Creates a Cielch instance from the lightness, chroma, and hue
    /// components. The hue is in radians at the component scale.
    ///
    /// The lightness component must lie between 0 and 100 at the
    /// component scale and the chroma must be nonnegative; otherwise
    /// the value does not represent a valid CIELCh color and the
    /// return value is None.
    pub fn new(lightness: i64, chroma: i64, hue: i64) -> (r: Option<Cielch>)
        ensures
            r == if 0 <= lightness <= 100 * SCALE && chroma >= 0 {
                Some(Cielch { l: lightness, c: chroma, h: hue })
            } else {
                None::<Cielch>
            },
    {
        if 0 <= lightness && lightness <= 100 * SCALE && chroma >= 0 {
            Some(Cielch { l: lightness, c: chroma, h: hue })
        } else {
            None
        }
    }

    /// Whether the components satisfy the CIELCh specification.
    pub open spec fn valid(self) -> bool {
        0 <= self.l <= 100 * SCALE && self.c >= 0
    }

    /// Lightness component, between 0 and 100 at the component scale
    /// when valid.
    pub fn lightness(&self) -> (r: i64)
        ensures
            r == self.l,
    {
        self.l
    }

    /// Chroma component, nonnegative when valid.
    pub fn chroma(&self) -> (r: i64)
        ensures
            r == self.c,
    {
        self.c
    }

    /// Hue component, in radians at the component scale.
    pub fn hue(&self) -> (r: i64)
        ensures
            r == self.h,
    {
        self.h
    }

    /// Conversion from CIELAB to CIELCh: polar decomposition of the
    /// opponent-color plane.
    pub fn from_cielab(v: Cielab) -> (r: Cielch)
        requires
            -1000000000000 <= v.a <= 1000000000000,
            -1000000000000 <= v.b <= 1000000000000,
        ensures
            ({
                let m = lch_of_lab(v.l as int, v.a as int, v.b as int);
                r.l == m.0 && r.c == m.1 && r.h == m.2
            }),
            0 <= r.c <= 1414213562374,
            -74529216 <= r.h <= 74529216,
    {
        proof {
            assert(0 <= (v.a as int) * (v.a as int) <= 1000000000000000000000000 && 0 <= (
            v.b as int) * (v.b as int) <= 1000000000000000000000000 && 0 <= (v.a as int) * (
            v.a as int) + (v.b as int) * (v.b as int) <= 2000000000000000000000000)
                by (nonlinear_arith)
                requires
                    -1000000000000 <= v.a <= 1000000000000,
                    -1000000000000 <= v.b <= 1000000000000,
            ;
        }
        let n: i128 = (v.a as i128) * (v.a as i128) + (v.b as i128) * (v.b as i128);
        let c: u128 = isqrt(n as u128);
        proof {
            assert(sqrt(n as int) <= 1414213562374) by {
                if sqrt(n as int) > 1414213562374 {
                    assert(sq(sqrt(n as int)) >= sq(1414213562375int)) by (nonlinear_arith)
                        requires
                            sqrt(n as int) >= 1414213562375,
                    ;
                    assert(sq(1414213562375int) > 2000000000000000000000000int)
                        by (nonlinear_arith);
                }
            }
        }
        let h: i64 = atan2_fx(v.b, v.a);
        Cielch { l: v.l, c: c as i64, h }
    }

    /// Conversion from CIEXYZ to CIELCh, routed through CIELAB.
    pub fn from_ciexyz(c: Ciexyz) -> (r: Cielch)
        requires
            -4 * SCALE <= c.x <= 4 * SCALE,
            -4 * SCALE <= c.y <= 4 * SCALE,
            -4 * SCALE <= c.z <= 4 * SCALE,
        ensures
            ({
                let lab = lab_of_xyz(c.x as int, c.y as int, c.z as int);
                let m = lch_of_lab(lab.0, lab.1, lab.2);
                r.l == m.0 && r.c == m.1 && r.h == m.2
            }),
    {
        let lab: Cielab = Cielab::from_ciexyz(c);
        Cielch::from_cielab(lab)
    }

    /// Conversion from sRGB to CIELCh, routed through CIELAB.
    pub fn from_srgb(v: Srgb) -> (r: Cielch)
        requires
            0 <= v.r <= SCALE,
            0 <= v.g <= SCALE,
            0 <= v.b <= SCALE,
        ensures
            ({
                let xyz = xyz_of_srgb(v);
                let lab = lab_of_xyz(xyz.0, xyz.1, xyz.2);
                let m = lch_of_lab(lab.0, lab.1, lab.2);
                r.l == m.0 && r.c == m.1 && r.h == m.2
            }),
    {
        let lab: Cielab = Cielab::from_srgb(v);
        Cielch::from_cielab(lab)
    }

    /// New CIELCh color from an array of 3 components. Fails with an
    /// OutOfSpecification error if the lightness or the chroma
    /// violates the CIELCh specification (the same ranges the
    /// validating constructor enforces).
    pub fn try_from_array(array: [i64; 3]) -> (r: Result<Cielch, OutOfSpecification>)
        ensures
            r == if 0 <= array[0] <= 100 * SCALE && array[1] >= 0 {
                Ok::<Cielch, OutOfSpecification>(Cielch { l: array[0], c: array[1], h: array[2] })
            } else {
                Err::<Cielch, OutOfSpecification>(OutOfSpecification)
            },
    {
        if 0 <= array[0] && array[0] <= 100 * SCALE && array[1] >= 0 {
            Ok(Cielch { l: array[0], c: array[1], h: array[2] })
        } else {
            Err(OutOfSpecification)
        }
    }

    /// New CIELCh color from an array of 3 components, without
    /// validation: the caller is responsible for the ranges.
    pub fn from_array(array: [i64; 3]) -> (r: Cielch)
        ensures
            r.l == array[0],
            r.c == array[1],
            r.h == array[2],
    {
        Cielch { l: array[0], c: array[1], h: array[2] }
    }

    /// The components as an array.
    pub fn to_array(&self) -> (r: [i64; 3])
        ensures
            r[0] == self.l,
            r[1] == self.c,
            r[2] == self.h,
    {
        [self.l, self.c, self.h]
    }
}

/// Two Cielch instances are equal if all their components are equal,
/// unless the chroma components are both 0, in which case only the
/// lightness components are compared: with zero chroma the hue is
/// undefined.
impl PartialEq for Cielch {
    fn eq(&self, other: &Cielch) -> (r: bool) {
        if self.c != 0 || other.c != 0 {
            self.l == other.l && self.c == other.c && self.h == other.h
        } else {
            self.l == other.l
        }
    }
}

impl vstd::std_specs::cmp::PartialEqSpecImpl for Cielch {
    open spec fn obeys_eq_spec() -> bool {
        true
    }

    open spec fn eq_spec(&self, other: &Cielch) -> bool {
        if self.c != 0 || other.c != 0 {
            self.l == other.l && self.c == other.c && self.h == other.h
        } else {
            self.l == other.l
        }
    }
}

} // verus!
