//! The sRGB color space: gamma-compressed, device-referred RGB.
//!
//! Channels are stored as fixed-point values (see [`crate::fixed::SCALE`])
//! normalized so that `0` is black and `SCALE` is full intensity; any
//! 8-bit triple maps losslessly into this range. Equality is defined
//! on the rounded 8-bit representation, since the canonical form of
//! sRGB is integral.

use crate::cielab::lab_of_lch;
use crate::cielab::Cielab;
use crate::cielch::Cielch;
use crate::ciexyz::mat_row;
use crate::ciexyz::xyz_of_lab;
use crate::ciexyz::Ciexyz;
use crate::error::OutOfGamut;
use crate::fixed::cbrt;
use crate::fixed::cube;
use crate::fixed::pow5;
use crate::fixed::sq;
use crate::fixed::icbrt;
use crate::fixed::iroot5;
use crate::fixed::isqrt;
use crate::fixed::lemma_rdiv_bound;
use crate::fixed::lemma_rdiv_mono;
use crate::fixed::lemma_rdiv_sign;
use crate::fixed::rdiv;
use crate::fixed::rdiv_i128;
use crate::fixed::rdiv_i64;
use crate::fixed::root5;
use crate::fixed::sqrt;
use crate::fixed::SCALE;
use vstd::prelude::*;

verus! {

/// A color in the sRGB color space: gamma-compressed red, green and
/// blue channels at the component scale.
///
/// Channels produced by the validating paths lie in `[0, SCALE]`;
/// the raw array path admits any values, whose downstream behavior
/// is then only defined within each conversion's stated domain.
#[derive(Clone, Copy, Debug)]
pub struct Srgb {
    pub r: i64,
    pub g: i64,
    pub b: i64,
}

/// The fixed-point channel encoding the 8-bit intensity `b`:
/// `b / 255` at the component scale, rounded to the nearest step.
pub open spec fn channel_of_byte(b: int) -> int {
    rdiv(b * SCALE, 255)
}

/// The 8-bit intensity nearest to the channel `v`, saturating at 0
/// and 255 as the float-to-byte cast of a reference implementation
/// would.
pub open spec fn byte_of(v: int) -> int {
    let q = rdiv(255 * v, SCALE as int);
    if q < 0 {
        0
    } else if q > 255 {
        255
    } else {
        q
    }
}

/// Gamma expansion (IEC 61966-2-1): values above the knee follow
/// `((v + 0.055) / 1.055)^2.4`, evaluated as `u^2 * (u^2)^(1/5)`
/// through the integer fifth root; values at or below it follow
/// `v / 12.92`. One rounding per step.
pub open spec fn gamma_expand_spec(v: int) -> int {
    let s = SCALE as int;
    if v > 404500 {
        let u = rdiv(1000 * (v + 550000), 1055);
        let u2 = rdiv(u * u, s);
        let t = root5(s * s * s * u * u);
        rdiv(u2 * t, s)
    } else {
        rdiv(100 * v, 1292)
    }
}

/// Gamma compression (IEC 61966-2-1): values above the knee follow
/// `1.055 * v^(1/2.4) - 0.055`, with `v^(5/12)` evaluated as the
/// cube root of `v^5` followed by two square roots; values at or
/// below it follow `v * 12.92`. One rounding per step.
pub open spec fn gamma_compress_spec(v: int) -> int {
    let s = SCALE as int;
    if v > 31308 {
        let v2 = rdiv(v * v, s);
        let c = cbrt(v2 * v2 * v);
        let t1 = sqrt(s * c);
        let t2 = sqrt(s * t1);
        rdiv(1055 * t2, 1000) - 550000
    } else {
        rdiv(1292 * v, 100)
    }
}

/// Expands (or makes linear) a gamma compressed value.
pub fn gamma_expand(v: i64) -> (r: i64)
    requires
        -4 * SCALE <= v <= 4 * SCALE,
    ensures
        r == gamma_expand_spec(v as int),
        -3095975 <= r <= 253146637,
        0 <= v <= SCALE ==> 0 <= r <= SCALE,
{
    if v > 404500 {
        let u: i64 = rdiv_i64(1000 * ((v as i128) + 550000), 1055);
        proof {
            lemma_rdiv_bound(1000 * ((v as int) + 550000), 1055, 38436019);
            lemma_rdiv_sign(1000 * ((v as int) + 550000), 1055);
            assert(0 <= (u as int) * (u as int) <= 1477327556568361) by (nonlinear_arith)
                requires
                    0 <= u <= 38436019,
            ;
        }
        let u2: i64 = rdiv_i64((u as i128) * (u as i128), SCALE as i128);
        proof {
            lemma_rdiv_bound((u as int) * (u as int), SCALE as int, 147732756);
            lemma_rdiv_sign((u as int) * (u as int), SCALE as int);
        }
        proof {
            assert(0 <= 1000000000000000000000 * (u as int) * (u as int)
                <= 1477327556568361000000000000000000000) by (nonlinear_arith)
                requires
                    0 <= u <= 38436019,
            ;
        }
        let arg: i128 = 1000000000000000000000 * (u as i128) * (u as i128);
        let t: u128 = iroot5(arg as u128);
        proof {
            assert(root5(arg as int) <= 17135443) by {
                if root5(arg as int) > 17135443 {
                    assert(pow5(root5(arg as int)) >= pow5(17135444int)) by (nonlinear_arith)
                        requires
                            root5(arg as int) >= 17135444,
                    ;
                    assert(pow5(17135444int) > 1477327556568361000000000000000000000int)
                        by (nonlinear_arith);
                }
            }
            assert(0 <= (u2 as int) * (t as int) <= 2531466367403664) by (nonlinear_arith)
                requires
                    0 <= u2 <= 147732756,
                    0 <= t <= 17135443,
            ;
        }
        let r: i64 = rdiv_i64((u2 as i128) * (t as i128), SCALE as i128);
        proof {
            lemma_rdiv_bound((u2 as int) * (t as int), SCALE as int, 253146637);
            lemma_rdiv_sign((u2 as int) * (t as int), SCALE as int);
            if v <= SCALE {
                lemma_rdiv_mono(1000 * ((v as int) + 550000), 10550000000, 1055);
                assert(21100001055int / 2110int == 10000000int);
                assert(rdiv(10550000000, 1055) == 10000000);
                assert((u as int) * (u as int) <= 100000000000000) by (nonlinear_arith)
                    requires
                        0 <= u <= 10000000,
                ;
                lemma_rdiv_mono((u as int) * (u as int), 100000000000000, SCALE as int);
                assert(200000010000000int / 20000000int == 10000000int);
                assert(rdiv(100000000000000, 10000000) == 10000000);
                assert(1000000000000000000000 * (u as int) * (u as int)
                    <= 100000000000000000000000000000000000) by (nonlinear_arith)
                    requires
                        0 <= u <= 10000000,
                ;
                assert(t <= 10000000) by {
                    if t > 10000000 {
                        assert(pow5(t as int) >= pow5(10000001int)) by (nonlinear_arith)
                            requires
                                t >= 10000001,
                        ;
                        assert(pow5(10000001int) > 100000000000000000000000000000000000int)
                            by (nonlinear_arith);
                    }
                }
                assert((u2 as int) * (t as int) <= 100000000000000) by (nonlinear_arith)
                    requires
                        0 <= u2 <= 10000000,
                        0 <= t <= 10000000,
                ;
                lemma_rdiv_mono((u2 as int) * (t as int), 100000000000000, SCALE as int);
            }
        }
        r
    } else {
        let r: i64 = rdiv_i64(100 * (v as i128), 1292);
        proof {
            lemma_rdiv_bound(100 * (v as int), 1292, 3095976);
            if 0 <= v {
                lemma_rdiv_sign(100 * (v as int), 1292);
                lemma_rdiv_mono(100 * (v as int), 40450000, 1292);
                assert(80901292int / 2584int == 31308int);
                assert(rdiv(40450000, 1292) == 31308);
            }
        }
        r
    }
}

/// Compresses a gamma expanded (or linear) value.
pub fn gamma_compress(v: i64) -> (r: i64)
    requires
        -64 * SCALE <= v <= 64 * SCALE,
    ensures
        r == gamma_compress_spec(v as int),
        -8268800000 <= r <= 59129812,
{
    if v > 31308 {
        proof {
            assert(0 <= (v as int) * (v as int) <= 409600000000000000) by (nonlinear_arith)
                requires
                    0 < v <= 640000000,
            ;
        }
        let v2: i64 = rdiv_i64((v as i128) * (v as i128), SCALE as i128);
        proof {
            lemma_rdiv_bound((v as int) * (v as int), SCALE as int, 40960000000);
            lemma_rdiv_sign((v as int) * (v as int), SCALE as int);
            assert(0 <= (v2 as int) * (v2 as int) <= 1677721600000000000000
                && 0 <= (v2 as int) * (v2 as int) * (v as int)
                <= 1073741824000000000000000000000) by (nonlinear_arith)
                requires
                    0 <= v2 <= 40960000000,
                    0 < v <= 640000000,
            ;
        }
        let arg: i128 = (v2 as i128) * (v2 as i128) * (v as i128);
        let c: u128 = icbrt(arg as u128);
        proof {
            assert(cbrt(arg as int) <= 10240000000) by {
                if cbrt(arg as int) > 10240000000 {
                    assert(cube(cbrt(arg as int)) >= cube(10240000001int)) by (nonlinear_arith)
                        requires
                            cbrt(arg as int) >= 10240000001,
                    ;
                    assert(cube(10240000001int) > 1073741824000000000000000000000int)
                        by (nonlinear_arith);
                }
            }
        }
        let t1: u128 = isqrt(10000000 * c);
        proof {
            assert(sqrt(10000000 * (c as int)) <= 320000000) by {
                if sqrt(10000000 * (c as int)) > 320000000 {
                    assert(sq(sqrt(10000000 * (c as int))) >= sq(320000001int)) by (nonlinear_arith)
                        requires
                            sqrt(10000000 * (c as int)) >= 320000001,
                    ;
                    assert(sq(320000001int) > 102400000000000000int) by (nonlinear_arith);
                }
            }
        }
        let t2: u128 = isqrt(10000000 * t1);
        proof {
            assert(sqrt(10000000 * (t1 as int)) <= 56568542) by {
                if sqrt(10000000 * (t1 as int)) > 56568542 {
                    assert(sq(sqrt(10000000 * (t1 as int))) >= sq(56568543int)) by (nonlinear_arith)
                        requires
                            sqrt(10000000 * (t1 as int)) >= 56568543,
                    ;
                    assert(sq(56568543int) > 3200000000000000int) by (nonlinear_arith);
                }
            }
        }
        let u: i64 = rdiv_i64(1055 * (t2 as i128), 1000);
        proof {
            lemma_rdiv_bound(1055 * (t2 as int), 1000, 59679812);
            lemma_rdiv_sign(1055 * (t2 as int), 1000);
        }
        u - 550000
    } else {
        let r: i64 = rdiv_i64(1292 * (v as i128), 100);
        proof {
            lemma_rdiv_bound(1292 * (v as int), 100, 8268800000);
        }
        r
    }
}

impl Srgb {
    /// Creates a Srgb instance from 3 unsigned 8 bit integers
    /// representing the red, green, and blue components.
    pub fn new(red: u8, green: u8, blue: u8) -> (r: Srgb)
        ensures
            r.r == channel_of_byte(red as int),
            r.g == channel_of_byte(green as int),
            r.b == channel_of_byte(blue as int),
            0 <= r.r <= SCALE,
            0 <= r.g <= SCALE,
            0 <= r.b <= SCALE,
    {
        proof {
            lemma_channel_of_byte_range(red as int);
            lemma_channel_of_byte_range(green as int);
            lemma_channel_of_byte_range(blue as int);
        }
        Srgb {
            r: rdiv_i64((red as i128) * (SCALE as i128), 255),
            g: rdiv_i64((green as i128) * (SCALE as i128), 255),
            b: rdiv_i64((blue as i128) * (SCALE as i128), 255),
        }
    }

    /// Red component, normalized to the component scale.
    pub fn red(&self) -> (r: i64)
        ensures
            r == self.r,
    {
        self.r
    }

    /// Green component, normalized to the component scale.
    pub fn green(&self) -> (r: i64)
        ensures
            r == self.g,
    {
        self.g
    }

    /// Blue component, normalized to the component scale.
    pub fn blue(&self) -> (r: i64)
        ensures
            r == self.b,
    {
        self.b
    }

    /// Red component as an 8 bit unsigned integer.
    pub fn red_as_u8(&self) -> (r: u8)
        ensures
            r == byte_of(self.r as int),
    {
        quantize(self.r)
    }

    /// Green component as an 8 bit unsigned integer.
    pub fn green_as_u8(&self) -> (r: u8)
        ensures
            r == byte_of(self.g as int),
    {
        quantize(self.g)
    }

    /// Blue component as an 8 bit unsigned integer.
    pub fn blue_as_u8(&self) -> (r: u8)
        ensures
            r == byte_of(self.b as int),
    {
        quantize(self.b)
    }

    /// Linear (gamma expanded) red component.
    pub fn linear_red(&self) -> (r: i64)
        requires
            -4 * SCALE <= self.r <= 4 * SCALE,
        ensures
            r == gamma_expand_spec(self.r as int),
    {
        gamma_expand(self.r)
    }

    /// Linear (gamma expanded) green component.
    pub fn linear_green(&self) -> (r: i64)
        requires
            -4 * SCALE <= self.g <= 4 * SCALE,
        ensures
            r == gamma_expand_spec(self.g as int),
    {
        gamma_expand(self.g)
    }

    /// Linear (gamma expanded) blue component.
    pub fn linear_blue(&self) -> (r: i64)
        requires
            -4 * SCALE <= self.b <= 4 * SCALE,
        ensures
            r == gamma_expand_spec(self.b as int),
    {
        gamma_expand(self.b)
    }

    /// New sRGB color from an array of 3 channel values, without
    /// validation: the caller is responsible for keeping the values
    /// in range.
    pub fn from_array(array: [i64; 3]) -> (r: Srgb)
        ensures
            r.r == array[0],
            r.g == array[1],
            r.b == array[2],
    {
        Srgb { r: array[0], g: array[1], b: array[2] }
    }

    /// The channels as an array.
    pub fn to_array(&self) -> (r: [i64; 3])
        ensures
            r[0] == self.r,
            r[1] == self.g,
            r[2] == self.b,
    {
        [self.r, self.g, self.b]
    }

    /// New sRGB color from an array of 3 unsigned 8 bit integers.
    pub fn from_bytes(array: [u8; 3]) -> (r: Srgb)
        ensures
            r.r == channel_of_byte(array[0] as int),
            r.g == channel_of_byte(array[1] as int),
            r.b == channel_of_byte(array[2] as int),
    {
        Srgb::new(array[0], array[1], array[2])
    }
}

/// The byte encoding of a channel that encodes a byte is that byte:
/// quantization is a left inverse of [`channel_of_byte`].
pub proof fn lemma_byte_channel_round_trip(b: int)
    requires
        0 <= b <= 255,
    ensures
        byte_of(channel_of_byte(b)) == b,
{
    let s = SCALE as int;
    let v = rdiv(b * s, 255);
    crate::fixed::lemma_rdiv_close(b * s, 255);
    let q = rdiv(255 * v, s);
    crate::fixed::lemma_rdiv_close(255 * v, s);
    assert(2 * (b * s - v * 255) <= 255 && 2 * (v * 255 - b * s) <= 255);
    assert(q == b) by (nonlinear_arith)
        requires
            2 * (b * s - v * 255) <= 255,
            2 * (v * 255 - b * s) <= 255,
            2 * (255 * v - q * s) <= s,
            2 * (q * s - 255 * v) <= s,
            s == 10000000,
            0 <= b <= 255,
    ;
}

/// A channel that encodes a byte lies in `[0, SCALE]`.
pub proof fn lemma_channel_of_byte_range(b: int)
    requires
        0 <= b <= 255,
    ensures
        0 <= channel_of_byte(b) <= SCALE,
{
    lemma_rdiv_sign(b * SCALE, 255);
    assert(b * SCALE <= 255 * SCALE) by (nonlinear_arith)
        requires
            0 <= b <= 255,
            SCALE == 10000000,
    ;
    lemma_rdiv_bound(b * SCALE, 255, SCALE as int);
    assert(b * (SCALE as int) >= 0) by (nonlinear_arith)
        requires
            b >= 0,
    ;
}

/// Rounds a channel to its nearest 8-bit intensity, saturating.
fn quantize(v: i64) -> (r: u8)
    ensures
        r == byte_of(v as int),
{
    let q: i128 = rdiv_i128(255 * (v as i128), SCALE as i128);
    proof {
        lemma_rdiv_bound(255 * (v as int), SCALE as int, 400000000000000);
    }
    if q < 0 {
        0
    } else if q > 255 {
        255
    } else {
        q as u8
    }
}

/// Channels this close to the displayable range (in fixed-point
/// steps) are treated as on its boundary by the gamut check: the
/// rounded arithmetic cannot distinguish them from in-range values.
pub const GAMUT_TOL: i64 = 100;

/// R row of the XYZ → sRGB matrix: the exact rationals 12831/3959,
/// -329/214 and -1974/3959 over their common denominator, rounded
/// once.
pub open spec fn linear_row_r(x: int, y: int, z: int) -> int {
    rdiv(x * 10870756806 + y * -5156641049 + z * -1672424124, 3354167734)
}

/// G row of the XYZ → sRGB matrix: the exact rationals
/// -851781/878810, 1648619/878810 and 36519/878810 over their common
/// denominator, rounded once.
pub open spec fn linear_row_g(x: int, y: int, z: int) -> int {
    rdiv(x * -657836442480674100 + y * 1273240020575765900 + z * 28203879920955900,
        678711128818841000)
}

/// B row of the XYZ → sRGB matrix: the exact rationals 705/12673,
/// -2585/12673 and 705/667 over their common denominator, rounded
/// once.
pub open spec fn linear_row_b(x: int, y: int, z: int) -> int {
    rdiv(x * 5959288155 + y * -21850723235 + z * 113226474945, 107123487643)
}

/// The linear RGB channels of an XYZ color: the inverse matrix.
pub open spec fn linear_of_xyz(x: int, y: int, z: int) -> (int, int, int) {
    (linear_row_r(x, y, z), linear_row_g(x, y, z), linear_row_b(x, y, z))
}

/// The gamma-compressed sRGB channels of an XYZ color.
pub open spec fn compressed_of_xyz(x: int, y: int, z: int) -> (int, int, int) {
    let lin = linear_of_xyz(x, y, z);
    (gamma_compress_spec(lin.0), gamma_compress_spec(lin.1), gamma_compress_spec(lin.2))
}

/// Whether an XYZ color is displayable in sRGB: every compressed
/// channel lies in `[0, SCALE]`, up to the boundary tolerance.
pub open spec fn in_srgb_gamut(x: int, y: int, z: int) -> bool {
    let p = compressed_of_xyz(x, y, z);
    -GAMUT_TOL <= p.0 <= SCALE + GAMUT_TOL && -GAMUT_TOL <= p.1 <= SCALE + GAMUT_TOL && -GAMUT_TOL
        <= p.2 <= SCALE + GAMUT_TOL
}

/// A channel accepted by the gamut check, snapped onto `[0, SCALE]`.
pub open spec fn snap_channel(v: int) -> int {
    if v < 0 {
        0
    } else if v > SCALE {
        SCALE as int
    } else {
        v
    }
}

/// Snaps an accepted channel onto the displayable range.
fn snap(v: i64) -> (r: i64)
    ensures
        r == snap_channel(v as int),
{
    if v < 0 {
        0
    } else if v > SCALE {
        SCALE
    } else {
        v
    }
}

impl Srgb {
    /// Conversion from CIEXYZ to sRGB: apply the XYZ → RGB matrix,
    /// gamma-compress each channel, and accept the result only if
    /// every channel is displayable (within [`GAMUT_TOL`] of
    /// `[0, SCALE]`, then snapped onto it). The conversion fails
    /// atomically with an OutOfGamut error otherwise.
    pub fn try_from_ciexyz(c: Ciexyz) -> (r: Result<Srgb, OutOfGamut>)
        requires
            -8 * SCALE <= c.x <= 8 * SCALE,
            -8 * SCALE <= c.y <= 8 * SCALE,
            -8 * SCALE <= c.z <= 8 * SCALE,
        ensures
            ({
                let p = compressed_of_xyz(c.x as int, c.y as int, c.z as int);
                match r {
                    Ok(s) => in_srgb_gamut(c.x as int, c.y as int, c.z as int) && s.r
                        == snap_channel(p.0) && s.g == snap_channel(p.1) && s.b == snap_channel(
                        p.2,
                    ),
                    Err(e) => !in_srgb_gamut(c.x as int, c.y as int, c.z as int),
                }
            }),
    {
        let lr: i64 = mat_row(c.x, c.y, c.z, 10870756806, -5156641049, -1672424124, 3354167734);
        let lg: i64 = mat_row(
            c.x,
            c.y,
            c.z,
            -657836442480674100,
            1273240020575765900,
            28203879920955900,
            678711128818841000,
        );
        let lb: i64 = mat_row(c.x, c.y, c.z, 5959288155, -21850723235, 113226474945, 107123487643);
        proof {
            assert(-1416000000000000000 <= (c.x as int) * 10870756806 + (c.y as int)
                * -5156641049 + (c.z as int) * -1672424124 <= 1416000000000000000)
                by (nonlinear_arith)
                requires
                    -80000000 <= c.x <= 80000000,
                    -80000000 <= c.y <= 80000000,
                    -80000000 <= c.z <= 80000000,
            ;
            lemma_rdiv_bound(
                (c.x as int) * 10870756806 + (c.y as int) * -5156641049 + (c.z as int)
                    * -1672424124,
                3354167734,
                640000000,
            );
            assert(-156800000000000000000000000 <= (c.x as int) * -657836442480674100 + (
            c.y as int) * 1273240020575765900 + (c.z as int) * 28203879920955900
                <= 156800000000000000000000000) by (nonlinear_arith)
                requires
                    -80000000 <= c.x <= 80000000,
                    -80000000 <= c.y <= 80000000,
                    -80000000 <= c.z <= 80000000,
            ;
            lemma_rdiv_bound(
                (c.x as int) * -657836442480674100 + (c.y as int) * 1273240020575765900 + (
                c.z as int) * 28203879920955900,
                678711128818841000,
                640000000,
            );
            assert(-11300000000000000000 <= (c.x as int) * 5959288155 + (c.y as int)
                * -21850723235 + (c.z as int) * 113226474945 <= 11300000000000000000)
                by (nonlinear_arith)
                requires
                    -80000000 <= c.x <= 80000000,
                    -80000000 <= c.y <= 80000000,
                    -80000000 <= c.z <= 80000000,
            ;
            lemma_rdiv_bound(
                (c.x as int) * 5959288155 + (c.y as int) * -21850723235 + (c.z as int)
                    * 113226474945,
                107123487643,
                640000000,
            );
        }
        let cr: i64 = gamma_compress(lr);
        let cg: i64 = gamma_compress(lg);
        let cb: i64 = gamma_compress(lb);
        if -GAMUT_TOL <= cr && cr <= SCALE + GAMUT_TOL && -GAMUT_TOL <= cg && cg <= SCALE
            + GAMUT_TOL && -GAMUT_TOL <= cb && cb <= SCALE + GAMUT_TOL {
            Ok(Srgb { r: snap(cr), g: snap(cg), b: snap(cb) })
        } else {
            Err(OutOfGamut)
        }
    }
}

impl Srgb {
    /// Conversion from CIELAB to sRGB, routed through CIEXYZ; fails
    /// with an OutOfGamut error if the color is not displayable.
    pub fn try_from_cielab(v: Cielab) -> (r: Result<Srgb, OutOfGamut>)
        requires
            0 <= v.l <= 100 * SCALE,
            -3840000000 <= v.a <= 3840000000,
            -1400000000 <= v.b <= 1400000000,
        ensures
            ({
                let m = xyz_of_lab(v.l as int, v.a as int, v.b as int);
                let p = compressed_of_xyz(m.0, m.1, m.2);
                match r {
                    Ok(s) => in_srgb_gamut(m.0, m.1, m.2) && s.r == snap_channel(p.0) && s.g
                        == snap_channel(p.1) && s.b == snap_channel(p.2),
                    Err(e) => !in_srgb_gamut(m.0, m.1, m.2),
                }
            }),
    {
        let c: Ciexyz = Ciexyz::from_cielab(v);
        Srgb::try_from_ciexyz(c)
    }

    /// Conversion from CIELCh to sRGB, routed through CIELAB and
    /// CIEXYZ; fails with an OutOfGamut error if the color is not
    /// displayable.
    pub fn try_from_cielch(v: Cielch) -> (r: Result<Srgb, OutOfGamut>)
        requires
            0 <= v.l <= 100 * SCALE,
            0 <= v.c <= 1390000000,
        ensures
            ({
                let lab = lab_of_lch(v.l as int, v.c as int, v.h as int);
                let m = xyz_of_lab(lab.0, lab.1, lab.2);
                let p = compressed_of_xyz(m.0, m.1, m.2);
                match r {
                    Ok(s) => in_srgb_gamut(m.0, m.1, m.2) && s.r == snap_channel(p.0) && s.g
                        == snap_channel(p.1) && s.b == snap_channel(p.2),
                    Err(e) => !in_srgb_gamut(m.0, m.1, m.2),
                }
            }),
    {
        let lab: Cielab = Cielab::from_cielch(v);
        Srgb::try_from_cielab(lab)
    }
}

/// Two Srgb instances are considered equal if all their components
/// as unsigned 8 bit integers are equal.
impl PartialEq for Srgb {
    fn eq(&self, other: &Srgb) -> (r: bool) {
        self.red_as_u8() == other.red_as_u8() && self.green_as_u8() == other.green_as_u8()
            && self.blue_as_u8() == other.blue_as_u8()
    }
}

impl vstd::std_specs::cmp::PartialEqSpecImpl for Srgb {
    open spec fn obeys_eq_spec() -> bool {
        true
    }

    open spec fn eq_spec(&self, other: &Srgb) -> bool {
        byte_of(self.r as int) == byte_of(other.r as int) && byte_of(self.g as int) == byte_of(
            other.g as int,
        ) && byte_of(self.b as int) == byte_of(other.b as int)
    }
}

} // verus!
