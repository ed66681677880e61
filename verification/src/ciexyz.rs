//! The CIEXYZ color space: device-independent linear tristimulus
//! values, the hub through which all other conversions route.
//!
//! The sRGB → XYZ matrix is applied as exact rationals: each row is
//! brought to a common denominator and rounded once. The D65
//! reference white is derived as the row sums of that matrix — the
//! very computation that converts pure white sRGB — not hand-typed.

use crate::cielab::lab_of_lch;
use crate::cielab::Cielab;
use crate::cielch::Cielch;
use crate::error::OutOfSpecification;
use crate::fixed::lemma_rdiv_bound;
use crate::fixed::lemma_rdiv_mono;
use crate::fixed::lemma_rdiv_sign;
use crate::fixed::rdiv;
use crate::fixed::rdiv_i64;
use crate::fixed::SCALE;
use crate::srgb::gamma_expand;
use crate::srgb::gamma_expand_spec;
use crate::srgb::Srgb;
use vstd::prelude::*;

verus! {

/// A color in the CIEXYZ color space, components at the component
/// scale. `y` is luminance, normalized so the reference white has
/// `y == SCALE`.
#[derive(Clone, Copy, Debug, PartialEq, Eq, Structural)]
pub struct Ciexyz {
    pub x: i64,
    pub y: i64,
    pub z: i64,
}

/// X row of the sRGB → XYZ matrix: the exact rationals
/// 506752/1228815, 87881/245763 and 12673/70218 over their common
/// denominator, rounded once.
pub open spec fn xyz_row_x(lr: int, lg: int, lb: int) -> int {
    rdiv(
        lr * 8745012338727168 + lg * 7582806080091270 + lb * 3827211286688685,
        21205643662014210,
    )
}

/// Y row of the sRGB → XYZ matrix: the exact rationals 87098/409605,
/// 175762/245763 and 12673/175545 over their common denominator,
/// rounded once. These rationals sum to exactly 1.
pub open spec fn xyz_row_y(lr: int, lg: int, lb: int) -> int {
    rdiv(
        lr * 3757622489296830 + lg * 12638010133485450 + lb * 1275737095562895,
        17671369718345175,
    )
}

/// Z row of the sRGB → XYZ matrix: the exact rationals 7918/409605,
/// 87881/737289 and 1001167/1053270 over their common denominator,
/// rounded once.
pub open spec fn xyz_row_z(lr: int, lg: int, lb: int) -> int {
    rdiv(
        lr * 6148836800667540 + lg * 37914030400456350 + lb * 302349691648406115,
        318084654930213150,
    )
}

/// The XYZ color of an sRGB color: gamma-expand each channel, then
/// apply the matrix.
pub open spec fn xyz_of_srgb(v: Srgb) -> (int, int, int) {
    let lr = gamma_expand_spec(v.r as int);
    let lg = gamma_expand_spec(v.g as int);
    let lb = gamma_expand_spec(v.b as int);
    (xyz_row_x(lr, lg, lb), xyz_row_y(lr, lg, lb), xyz_row_z(lr, lg, lb))
}

/// The D65 reference white: the row sums of the sRGB → XYZ matrix,
/// which is the matrix applied to unit linear intensities.
pub open spec fn d65_spec() -> (int, int, int) {
    (
        xyz_row_x(SCALE as int, SCALE as int, SCALE as int),
        xyz_row_y(SCALE as int, SCALE as int, SCALE as int),
        xyz_row_z(SCALE as int, SCALE as int, SCALE as int),
    )
}

/// The numeric value of the derived D65 reference white:
/// approximately (0.9504559, 1, 1.0890578). Its luminance is exactly
/// the component scale, because the Y-row rationals sum to exactly 1.
pub proof fn lemma_d65_value()
    ensures
        d65_spec() == (9504559int, 10000000int, 10890578int),
{
    assert(403100615315786122014210int / 42411287324028420int == 9504559int);
    assert(rdiv(201550297055071230000000, 21205643662014210) == 9504559);
    assert(353427412038273218345175int / 35342739436690350int == 10000000int);
    assert(rdiv(176713697183451750000000, 17671369718345175) == 10000000);
    assert(6928251495075255030213150int / 636169309860426300int == 10890578int);
    assert(rdiv(3464125588495300050000000, 318084654930213150) == 10890578);
}

/// One matrix row over a common denominator `d`, rounded once.
pub(crate) fn mat_row(l1: i64, l2: i64, l3: i64, a1: i128, a2: i128, a3: i128, d: i128) -> (r:
    i64)
    requires
        -400000000 <= l1 <= 400000000,
        -400000000 <= l2 <= 400000000,
        -400000000 <= l3 <= 400000000,
        -2000000000000000000 <= a1 <= 2000000000000000000,
        -2000000000000000000 <= a2 <= 2000000000000000000,
        -2000000000000000000 <= a3 <= 2000000000000000000,
        1000000000 <= d <= 1000000000000000000000,
    ensures
        r == rdiv((l1 as int) * a1 + (l2 as int) * a2 + (l3 as int) * a3, d as int),
{
    proof {
        assert(-800000000000000000000000000 <= (l1 as int) * a1 <= 800000000000000000000000000
            && -800000000000000000000000000 <= (l2 as int) * a2 <= 800000000000000000000000000
            && -800000000000000000000000000 <= (l3 as int) * a3 <= 800000000000000000000000000)
            by (nonlinear_arith)
            requires
                -400000000 <= l1 <= 400000000,
                -400000000 <= l2 <= 400000000,
                -400000000 <= l3 <= 400000000,
                -2000000000000000000 <= a1 <= 2000000000000000000,
                -2000000000000000000 <= a2 <= 2000000000000000000,
                -2000000000000000000 <= a3 <= 2000000000000000000,
        ;
        assert((2400000000000000000000000000int) <= (i64::MAX as int) * d) by (nonlinear_arith)
            requires
                d >= 1000000000,
        ;
    }
    let n: i128 = (l1 as i128) * a1 + (l2 as i128) * a2 + (l3 as i128) * a3;
    rdiv_i64(n, d)
}

/// A matrix row with nonnegative coefficients, applied to linear
/// channels in `[0, SCALE]`, lies between zero and its row sum at
/// full scale.
proof fn lemma_row_bound(l1: int, l2: int, l3: int, a1: int, a2: int, a3: int, d: int)
    requires
        0 <= l1 <= SCALE,
        0 <= l2 <= SCALE,
        0 <= l3 <= SCALE,
        0 <= a1,
        0 <= a2,
        0 <= a3,
        0 < d,
    ensures
        0 <= rdiv(l1 * a1 + l2 * a2 + l3 * a3, d) <= rdiv(
            (SCALE as int) * a1 + (SCALE as int) * a2 + (SCALE as int) * a3,
            d,
        ),
{
    assert(0 <= l1 * a1 + l2 * a2 + l3 * a3 <= (SCALE as int) * a1 + (SCALE as int) * a2 + (
    SCALE as int) * a3) by (nonlinear_arith)
        requires
            0 <= l1 <= SCALE,
            0 <= l2 <= SCALE,
            0 <= l3 <= SCALE,
            0 <= a1,
            0 <= a2,
            0 <= a3,
    ;
    lemma_rdiv_sign(l1 * a1 + l2 * a2 + l3 * a3, d);
    lemma_rdiv_mono(l1 * a1 + l2 * a2 + l3 * a3,
        (SCALE as int) * a1 + (SCALE as int) * a2 + (SCALE as int) * a3, d);
}

impl Ciexyz {
    /// Creates a Ciexyz instance from the X, Y, and Z components.
    ///
    /// Each value must be nonnegative and Y must also be at most the
    /// component scale; otherwise the value does not represent a
    /// valid CIEXYZ color and the return value is None.
    pub fn new(x: i64, y: i64, z: i64) -> (r: Option<Ciexyz>)
        ensures
            r == if x >= 0 && 0 <= y <= SCALE && z >= 0 {
                Some(Ciexyz { x, y, z })
            } else {
                None::<Ciexyz>
            },
    {
        if x >= 0 && 0 <= y && y <= SCALE && z >= 0 {
            Some(Ciexyz { x, y, z })
        } else {
            None
        }
    }

    /// Whether the components satisfy the CIEXYZ specification.
    pub open spec fn valid(self) -> bool {
        self.x >= 0 && 0 <= self.y <= SCALE && self.z >= 0
    }

    /// X component.
    pub fn x(&self) -> (r: i64)
        ensures
            r == self.x,
    {
        self.x
    }

    /// Y component (luminance), at most the component scale when
    /// valid.
    pub fn y(&self) -> (r: i64)
        ensures
            r == self.y,
    {
        self.y
    }

    /// Z component.
    pub fn z(&self) -> (r: i64)
        ensures
            r == self.z,
    {
        self.z
    }

    /// Conversion from sRGB to CIEXYZ: linearize the three channels,
    /// then apply the sRGB → XYZ matrix.
    pub fn from_srgb(v: Srgb) -> (r: Ciexyz)
        requires
            -4 * SCALE <= v.r <= 4 * SCALE,
            -4 * SCALE <= v.g <= 4 * SCALE,
            -4 * SCALE <= v.b <= 4 * SCALE,
        ensures
            r.x == xyz_of_srgb(v).0,
            r.y == xyz_of_srgb(v).1,
            r.z == xyz_of_srgb(v).2,
            (0 <= v.r <= SCALE && 0 <= v.g <= SCALE && 0 <= v.b <= SCALE) ==> (0 <= r.x <= SCALE
                && 0 <= r.y <= SCALE && 0 <= r.z <= 2 * SCALE),
    {
        let lr: i64 = gamma_expand(v.r);
        let lg: i64 = gamma_expand(v.g);
        let lb: i64 = gamma_expand(v.b);
        proof {
            if 0 <= v.r <= SCALE && 0 <= v.g <= SCALE && 0 <= v.b <= SCALE {
                lemma_d65_value();
                lemma_row_bound(lr as int, lg as int, lb as int, 8745012338727168,
                    7582806080091270, 3827211286688685, 21205643662014210);
                lemma_row_bound(lr as int, lg as int, lb as int, 3757622489296830,
                    12638010133485450, 1275737095562895, 17671369718345175);
                lemma_row_bound(lr as int, lg as int, lb as int, 6148836800667540,
                    37914030400456350, 302349691648406115, 318084654930213150);
            }
        }
        Ciexyz {
            x: mat_row(
                lr,
                lg,
                lb,
                8745012338727168,
                7582806080091270,
                3827211286688685,
                21205643662014210,
            ),
            y: mat_row(
                lr,
                lg,
                lb,
                3757622489296830,
                12638010133485450,
                1275737095562895,
                17671369718345175,
            ),
            z: mat_row(
                lr,
                lg,
                lb,
                6148836800667540,
                37914030400456350,
                302349691648406115,
                318084654930213150,
            ),
        }
    }

    /// New CIEXYZ color from an array of 3 components. Fails with an
    /// OutOfSpecification error if the components violate the CIEXYZ
    /// specification (the same closed ranges the validating
    /// constructor enforces).
    pub fn try_from_array(array: [i64; 3]) -> (r: Result<Ciexyz, OutOfSpecification>)
        ensures
            r == if array[0] >= 0 && 0 <= array[1] <= SCALE && array[2] >= 0 {
                Ok::<Ciexyz, OutOfSpecification>(Ciexyz { x: array[0], y: array[1], z: array[2] })
            } else {
                Err::<Ciexyz, OutOfSpecification>(OutOfSpecification)
            },
    {
        if array[0] >= 0 && 0 <= array[1] && array[1] <= SCALE && array[2] >= 0 {
            Ok(Ciexyz { x: array[0], y: array[1], z: array[2] })
        } else {
            Err(OutOfSpecification)
        }
    }

    /// New CIEXYZ color from an array of 3 components, without
    /// validation: the caller is responsible for the ranges.
    pub fn from_array(array: [i64; 3]) -> (r: Ciexyz)
        ensures
            r.x == array[0],
            r.y == array[1],
            r.z == array[2],
    {
        Ciexyz { x: array[0], y: array[1], z: array[2] }
    }

    /// The components as an array.
    pub fn to_array(&self) -> (r: [i64; 3])
        ensures
            r[0] == self.x,
            r[1] == self.y,
            r[2] == self.z,
    {
        [self.x, self.y, self.z]
    }
}

/// D65 reference white: the row sums of the sRGB → XYZ conversion
/// matrix, equivalently the conversion of unit linear intensities.
pub fn d65() -> (r: Ciexyz)
    ensures
        r.x == d65_spec().0,
        r.y == d65_spec().1,
        r.z == d65_spec().2,
{
    let s: i64 = SCALE;
    Ciexyz {
        x: mat_row(
            s,
            s,
            s,
            8745012338727168,
            7582806080091270,
            3827211286688685,
            21205643662014210,
        ),
        y: mat_row(
            s,
            s,
            s,
            3757622489296830,
            12638010133485450,
            1275737095562895,
            17671369718345175,
        ),
        z: mat_row(
            s,
            s,
            s,
            6148836800667540,
            37914030400456350,
            302349691648406115,
            318084654930213150,
        ),
    }
}

/// The inverse of the CIE 1976 nonlinear function, for arguments at
/// scale 29 · SCALE (the natural scale of `(L + 16) / 116`): the
/// cube above 6/29, the linear continuation `3 (6/29)² (t - 4/29)`
/// below, each with a single rounding. `2438900000000000000` is
/// 24389 · SCALE², the denominator that brings the cube back to the
/// component scale.
pub open spec fn lab_finv(q: int) -> int {
    if q > 6 * (SCALE as int) {
        rdiv(q * q * q, 2438900000000000000)
    } else {
        rdiv(108 * (q - 4 * (SCALE as int)), 24389)
    }
}

/// The XYZ color of a CIELAB color: invert the CIE 1976 transform
/// and scale by the derived D65 white.
pub open spec fn xyz_of_lab(l: int, a: int, b: int) -> (int, int, int) {
    let p = rdiv(l + 16 * (SCALE as int), 4);
    let qx = p + rdiv(29 * a, 500);
    let qz = p - rdiv(29 * b, 200);
    (
        rdiv(d65_spec().0 * lab_finv(qx), SCALE as int),
        rdiv(d65_spec().1 * lab_finv(p), SCALE as int),
        rdiv(d65_spec().2 * lab_finv(qz), SCALE as int),
    )
}

/// The inverse nonlinear function, executable. `2438900000000000000`
/// is 24389 · SCALE².
fn lab_finv_exec(q: i64) -> (r: i64)
    requires
        -2000000000 <= q <= 2000000000,
    ensures
        r == lab_finv(q as int),
        -9033851 <= r <= 3280167289,
        q <= 512720001 ==> r <= 55270000,
{
    if q > 6 * SCALE {
        proof {
            assert((q as int) * (q as int) <= 4000000000000000000 && 0 <= (q as int) * (
            q as int) * (q as int) <= 8000000000000000000000000000) by (nonlinear_arith)
                requires
                    60000000 < q <= 2000000000,
            ;
        }
        let n: i128 = (q as i128) * (q as i128) * (q as i128);
        let r: i64 = rdiv_i64(n, 2438900000000000000);
        proof {
            lemma_rdiv_bound(n as int, 2438900000000000000, 3280167289);
            lemma_rdiv_sign(n as int, 2438900000000000000);
            if q <= 512720001 {
                assert((q as int) * (q as int) * (q as int) <= 134784756464293396738160001)
                    by (nonlinear_arith)
                    requires
                        0 < q <= 512720001,
                ;
                lemma_rdiv_bound(n as int, 2438900000000000000, 55270000);
            }
        }
        r
    } else {
        let r: i64 = rdiv_i64(108 * ((q as i128) - 40000000), 24389);
        proof {
            lemma_rdiv_bound(108 * ((q as int) - 40000000), 24389, 9033851);
        }
        r
    }
}

impl Ciexyz {
    /// Conversion from CIELAB to CIEXYZ: invert the CIE 1976
    /// transform.
    pub fn from_cielab(v: Cielab) -> (r: Ciexyz)
        requires
            -1000000000 <= v.l <= 2000000000,
            -10000000000 <= v.a <= 10000000000,
            -10000000000 <= v.b <= 10000000000,
        ensures
            ({
                let m = xyz_of_lab(v.l as int, v.a as int, v.b as int);
                r.x == m.0 && r.y == m.1 && r.z == m.2
            }),
            -3600000000000 <= r.x <= 3600000000000,
            -3600000000000 <= r.y <= 3600000000000,
            -3600000000000 <= r.z <= 3600000000000,
            (0 <= v.l <= 100 * SCALE && -3840000000 <= v.a <= 3840000000 && -1400000000 <= v.b
                <= 1400000000) ==> (-80000000 <= r.x <= 80000000 && -80000000 <= r.y <= 80000000
                && -80000000 <= r.z <= 80000000),
    {
        proof {
            lemma_d65_value();
        }
        let p: i64 = rdiv_i64((v.l as i128) + 160000000, 4);
        let da: i64 = rdiv_i64(29 * (v.a as i128), 500);
        let db: i64 = rdiv_i64(29 * (v.b as i128), 200);
        proof {
            lemma_rdiv_bound((v.l as int) + 160000000, 4, 540000000);
            lemma_rdiv_bound(29 * (v.a as int), 500, 580000000);
            lemma_rdiv_bound(29 * (v.b as int), 200, 1450000000);
            if 0 <= v.l <= 100 * SCALE && -3840000000 <= v.a <= 3840000000 && -1400000000 <= v.b
                <= 1400000000 {
                lemma_rdiv_mono(160000000, (v.l as int) + 160000000, 4);
                lemma_rdiv_mono((v.l as int) + 160000000, 1160000000, 4);
                assert(320000004int / 8int == 40000000int);
                assert(rdiv(160000000, 4) == 40000000);
                assert(2320000004int / 8int == 290000000int);
                assert(rdiv(1160000000, 4) == 290000000);
                lemma_rdiv_bound(29 * (v.a as int), 500, 222720001);
                lemma_rdiv_bound(29 * (v.b as int), 200, 203000001);
            }
        }
        let qx: i64 = p + da;
        let qz: i64 = p - db;
        let fx: i64 = lab_finv_exec(qx);
        let fy: i64 = lab_finv_exec(p);
        let fz: i64 = lab_finv_exec(qz);
        proof {
            lemma_rdiv_bound(9504559 * (fx as int), SCALE as int, 3600000000000);
            lemma_rdiv_bound(10000000 * (fy as int), SCALE as int, 3600000000000);
            lemma_rdiv_bound(10890578 * (fz as int), SCALE as int, 3600000000000);
            if 0 <= v.l <= 100 * SCALE && -3840000000 <= v.a <= 3840000000 && -1400000000 <= v.b
                <= 1400000000 {
                lemma_rdiv_bound(9504559 * (fx as int), SCALE as int, 80000000);
                lemma_rdiv_bound(10000000 * (fy as int), SCALE as int, 80000000);
                lemma_rdiv_bound(10890578 * (fz as int), SCALE as int, 80000000);
            }
        }
        Ciexyz {
            x: rdiv_i64(9504559 * (fx as i128), SCALE as i128),
            y: rdiv_i64(10000000 * (fy as i128), SCALE as i128),
            z: rdiv_i64(10890578 * (fz as i128), SCALE as i128),
        }
    }

    /// Conversion from CIELCh to CIEXYZ, routed through CIELAB.
    pub fn from_cielch(v: Cielch) -> (r: Ciexyz)
        requires
            -1000000000 <= v.l <= 2000000000,
            -3900000000 <= v.c <= 3900000000,
        ensures
            ({
                let lab = lab_of_lch(v.l as int, v.c as int, v.h as int);
                let m = xyz_of_lab(lab.0, lab.1, lab.2);
                r.x == m.0 && r.y == m.1 && r.z == m.2
            }),
    {
        let lab: Cielab = Cielab::from_cielch(v);
        Ciexyz::from_cielab(lab)
    }
}

} // verus!
