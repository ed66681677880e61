//! The CIELAB color space: perceptually-uniform lightness and two
//! opponent-color axes, relative to the D65 reference white.
//!
//! The forward CIE 1976 transform keeps its nonlinear function `f` at
//! a finer scale (3132 · SCALE, with 3132 = 108 · 29) so that both
//! the linear branch of `f` and the final lightness formula are
//! computed without intermediate rounding: black maps to lightness 0
//! and the reference white to lightness 100 exactly.

use crate::cielch::Cielch;
use crate::ciexyz::d65_spec;
use crate::ciexyz::lemma_d65_value;
use crate::ciexyz::xyz_of_srgb;
use crate::ciexyz::Ciexyz;
use crate::error::OutOfSpecification;
use crate::fixed::cbrt;
use crate::fixed::cube;
use crate::fixed::icbrt;
use crate::fixed::lemma_rdiv_bound;
use crate::fixed::rdiv;
use crate::fixed::rdiv_i64;
use crate::fixed::SCALE;
use crate::srgb::Srgb;
use crate::trig::cos_fx;
use crate::trig::cos_fx_spec;
use crate::trig::sin_fx;
use crate::trig::sin_fx_spec;
use vstd::prelude::*;

verus! {

/// A color in the CIELAB color space: lightness in `[0, 100]` at the
/// component scale, opponent-color axes `a` (green–red) and `b`
/// (blue–yellow) unconstrained.
#[derive(Clone, Copy, Debug, PartialEq, Eq, Structural)]
pub struct Cielab {
    pub l: i64,
    pub a: i64,
    pub b: i64,
}

/// The CIE 1976 nonlinear function `f`, at scale 3132 · SCALE.
/// Above `(6/29)^3` (as a ratio of its scale-SCALE argument, tested
/// exactly by cross-multiplication) it is the cube root; below, the
/// linear continuation `t * 841/108 + 4/29`, which at this scale is
/// the exact integer `24389 * t + 432 * SCALE`.
pub open spec fn lab_f(t: int) -> int {
    if 24389 * t > 216 * (SCALE as int) {
        cbrt(30723115968 * (SCALE as int) * (SCALE as int) * t)
    } else {
        24389 * t + 432 * (SCALE as int)
    }
}

/// The CIELAB color of an XYZ color: ratios against the derived D65
/// white, `f` of each ratio, then the lightness and opponent axes,
/// each with a single final rounding.
pub open spec fn lab_of_xyz(x: int, y: int, z: int) -> (int, int, int) {
    let fx = lab_f(rdiv(x * (SCALE as int), d65_spec().0));
    let fy = lab_f(rdiv(y * (SCALE as int), d65_spec().1));
    let fz = lab_f(rdiv(z * (SCALE as int), d65_spec().2));
    (
        rdiv(116 * fy - 16 * 3132 * (SCALE as int), 3132),
        rdiv(500 * (fx - fy), 3132),
        rdiv(200 * (fy - fz), 3132),
    )
}

/// The CIELAB color of a CIELCh color: Cartesian reconstruction of
/// the opponent axes from chroma and hue, lightness unchanged.
pub open spec fn lab_of_lch(l: int, c: int, h: int) -> (int, int, int) {
    (l, rdiv(c * cos_fx_spec(h), SCALE as int), rdiv(c * sin_fx_spec(h), SCALE as int))
}

/// The nonlinear function `f`, executable. `30723115968` is 3132³.
fn lab_f_exec(t: i64) -> (r: i64)
    requires
        -43000000 <= t <= 43000000,
    ensures
        r == lab_f(t as int),
        -1044407000000 <= r <= 50930495948,
{
    if 24389 * t > 216 * SCALE {
        let arg: i128 = 3072311596800000000000000 * (t as i128);
        proof {
            assert(3072311596800000000000000int == 30723115968 * (SCALE as int) * (SCALE as int));
        }
        let c: u128 = icbrt(arg as u128);
        proof {
            assert(cbrt(arg as int) <= 50930495948) by {
                if cbrt(arg as int) > 50930495948 {
                    assert(cube(cbrt(arg as int)) >= cube(50930495949int)) by (nonlinear_arith)
                        requires
                            cbrt(arg as int) >= 50930495949,
                    ;
                    assert(cube(50930495949int) > 132109398662400000000000000000000int)
                        by (nonlinear_arith);
                }
            }
        }
        c as i64
    } else {
        24389 * t + 432 * SCALE
    }
}

impl Cielab {
    /// Creates a Cielab instance from the lightness, a, and b
    /// components.
    ///
    /// The lightness component must lie between 0 and 100 at the
    /// component scale; otherwise the value does not represent a
    /// valid CIELAB color and the return value is None.
    pub fn new(lightness: i64, a: i64, b: i64) -> (r: Option<Cielab>)
        ensures
            r == if 0 <= lightness <= 100 * SCALE {
                Some(Cielab { l: lightness, a, b })
            } else {
                None::<Cielab>
            },
    {
        if 0 <= lightness && lightness <= 100 * SCALE {
            Some(Cielab { l: lightness, a, b })
        } else {
            None
        }
    }

    /// Whether the components satisfy the CIELAB specification.
    pub open spec fn valid(self) -> bool {
        0 <= self.l <= 100 * SCALE
    }

    /// Lightness component, between 0 and 100 at the component scale
    /// when valid.
    pub fn lightness(&self) -> (r: i64)
        ensures
            r == self.l,
    {
        self.l
    }

    /// A component (green–red opponent axis).
    pub fn a(&self) -> (r: i64)
        ensures
            r == self.a,
    {
        self.a
    }

    /// B component (blue–yellow opponent axis).
    pub fn b(&self) -> (r: i64)
        ensures
            r == self.b,
    {
        self.b
    }

    /// Conversion from CIEXYZ to CIELAB: the CIE 1976 forward
    /// transform.
    pub fn from_ciexyz(c: Ciexyz) -> (r: Cielab)
        requires
            -4 * SCALE <= c.x <= 4 * SCALE,
            -4 * SCALE <= c.y <= 4 * SCALE,
            -4 * SCALE <= c.z <= 4 * SCALE,
        ensures
            ({
                let m = lab_of_xyz(c.x as int, c.y as int, c.z as int);
                r.l == m.0 && r.a == m.1 && r.b == m.2
            }),
            -200000000000 <= r.l <= 200000000000,
            -200000000000 <= r.a <= 200000000000,
            -200000000000 <= r.b <= 200000000000,
    {
        proof {
            lemma_d65_value();
        }
        let rx: i64 = rdiv_i64((c.x as i128) * (SCALE as i128), 9504559);
        let ry: i64 = rdiv_i64((c.y as i128) * (SCALE as i128), 10000000);
        let rz: i64 = rdiv_i64((c.z as i128) * (SCALE as i128), 10890578);
        proof {
            lemma_rdiv_bound((c.x as int) * (SCALE as int), 9504559, 42085067);
            lemma_rdiv_bound((c.y as int) * (SCALE as int), 10000000, 40000001);
            lemma_rdiv_bound((c.z as int) * (SCALE as int), 10890578, 36728997);
        }
        let fx: i64 = lab_f_exec(rx);
        let fy: i64 = lab_f_exec(ry);
        let fz: i64 = lab_f_exec(rz);
        let l: i64 = rdiv_i64(116 * (fy as i128) - 501120000000, 3132);
        let a: i64 = rdiv_i64(500 * ((fx as i128) - (fy as i128)), 3132);
        let b: i64 = rdiv_i64(200 * ((fy as i128) - (fz as i128)), 3132);
        proof {
            lemma_rdiv_bound(116 * (fy as int) - 501120000000, 3132, 200000000000);
            lemma_rdiv_bound(500 * ((fx as int) - (fy as int)), 3132, 200000000000);
            lemma_rdiv_bound(200 * ((fy as int) - (fz as int)), 3132, 200000000000);
        }
        Cielab { l, a, b }
    }

    /// Conversion from sRGB to CIELAB, routed through CIEXYZ.
    pub fn from_srgb(v: Srgb) -> (r: Cielab)
        requires
            0 <= v.r <= SCALE,
            0 <= v.g <= SCALE,
            0 <= v.b <= SCALE,
        ensures
            ({
                let xyz = xyz_of_srgb(v);
                let m = lab_of_xyz(xyz.0, xyz.1, xyz.2);
                r.l == m.0 && r.a == m.1 && r.b == m.2
            }),
            -200000000000 <= r.l <= 200000000000,
            -200000000000 <= r.a <= 200000000000,
            -200000000000 <= r.b <= 200000000000,
    {
        let c: Ciexyz = Ciexyz::from_srgb(v);
        Cielab::from_ciexyz(c)
    }

    /// Conversion from CIELCh to CIELAB: Cartesian reconstruction,
    /// `a = C cos h`, `b = C sin h`, lightness unchanged.
    pub fn from_cielch(v: Cielch) -> (r: Cielab)
        requires
            -1000000000000 <= v.c <= 1000000000000,
        ensures
            ({
                let m = lab_of_lch(v.l as int, v.c as int, v.h as int);
                r.l == m.0 && r.a == m.1 && r.b == m.2
            }),
            -1000000000000 <= r.a <= 1000000000000,
            -1000000000000 <= r.b <= 1000000000000,
            0 <= v.c <= 1390000000 ==> -1390000000 <= r.a <= 1390000000 && -1390000000 <= r.b
                <= 1390000000,
            -3900000000 <= v.c <= 3900000000 ==> -3900000000 <= r.a <= 3900000000 && -3900000000
                <= r.b <= 3900000000,
    {
        let co: i64 = cos_fx(v.h);
        let si: i64 = sin_fx(v.h);
        proof {
            assert(-10000000000000000000 <= (v.c as int) * (co as int) <= 10000000000000000000
                && -10000000000000000000 <= (v.c as int) * (si as int) <= 10000000000000000000)
                by (nonlinear_arith)
                requires
                    -1000000000000 <= v.c <= 1000000000000,
                    -10000000 <= co <= 10000000,
                    -10000000 <= si <= 10000000,
            ;
            lemma_rdiv_bound((v.c as int) * (co as int), SCALE as int, 1000000000000);
            lemma_rdiv_bound((v.c as int) * (si as int), SCALE as int, 1000000000000);
            if 0 <= v.c <= 1390000000 {
                assert(-13900000000000000 <= (v.c as int) * (co as int) <= 13900000000000000
                    && -13900000000000000 <= (v.c as int) * (si as int) <= 13900000000000000)
                    by (nonlinear_arith)
                    requires
                        0 <= v.c <= 1390000000,
                        -10000000 <= co <= 10000000,
                        -10000000 <= si <= 10000000,
                ;
                lemma_rdiv_bound((v.c as int) * (co as int), SCALE as int, 1390000000);
                lemma_rdiv_bound((v.c as int) * (si as int), SCALE as int, 1390000000);
            }
            if -3900000000 <= v.c <= 3900000000 {
                assert(-39000000000000000 <= (v.c as int) * (co as int) <= 39000000000000000
                    && -39000000000000000 <= (v.c as int) * (si as int) <= 39000000000000000)
                    by (nonlinear_arith)
                    requires
                        -3900000000 <= v.c <= 3900000000,
                        -10000000 <= co <= 10000000,
                        -10000000 <= si <= 10000000,
                ;
                lemma_rdiv_bound((v.c as int) * (co as int), SCALE as int, 3900000000);
                lemma_rdiv_bound((v.c as int) * (si as int), SCALE as int, 3900000000);
            }
        }
        let a: i64 = rdiv_i64((v.c as i128) * (co as i128), SCALE as i128);
        let b: i64 = rdiv_i64((v.c as i128) * (si as i128), SCALE as i128);
        Cielab { l: v.l, a, b }
    }

    /// New CIELAB color from an array of 3 components. Fails with an
    /// OutOfSpecification error if the lightness violates the CIELAB
    /// specification (the same closed range the validating
    /// constructor enforces).
    pub fn try_from_array(array: [i64; 3]) -> (r: Result<Cielab, OutOfSpecification>)
        ensures
            r == if 0 <= array[0] <= 100 * SCALE {
                Ok::<Cielab, OutOfSpecification>(Cielab { l: array[0], a: array[1], b: array[2] })
            } else {
                Err::<Cielab, OutOfSpecification>(OutOfSpecification)
            },
    {
        if 0 <= array[0] && array[0] <= 100 * SCALE {
            Ok(Cielab { l: array[0], a: array[1], b: array[2] })
        } else {
            Err(OutOfSpecification)
        }
    }

    /// New CIELAB color from an array of 3 components, without
    /// validation: the caller is responsible for the ranges.
    pub fn from_array(array: [i64; 3]) -> (r: Cielab)
        ensures
            r.l == array[0],
            r.a == array[1],
            r.b == array[2],
    {
        Cielab { l: array[0], a: array[1], b: array[2] }
    }

    /// The components as an array.
    pub fn to_array(&self) -> (r: [i64; 3])
        ensures
            r[0] == self.l,
            r[1] == self.a,
            r[2] == self.b,
    {
        [self.l, self.a, self.b]
    }
}

} // verus!
