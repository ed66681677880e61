//! The library's laws: proofs that the conversion graph treats its
//! distinguished points exactly and that the custom equalities mean
//! what they say.
//!
//! Each proof function here states a property of the specification
//! functions that the conversions' own contracts are written in, so
//! the property carries over to every executable conversion.

use crate::cielab::lab_of_lch;
use crate::cielab::lab_of_xyz;
use crate::cielch::lch_of_lab;
use crate::cielch::Cielch;
use crate::ciexyz::d65_spec;
use crate::ciexyz::lemma_d65_value;
use crate::ciexyz::xyz_of_lab;
use crate::ciexyz::xyz_of_srgb;
use crate::fixed::is_cbrt;
use crate::fixed::is_root5;
use crate::fixed::is_sqrt;
use crate::fixed::lemma_cbrt_unique;
use crate::fixed::lemma_rdiv_exact;
use crate::fixed::lemma_rdiv_zero;
use crate::fixed::lemma_root5_unique;
use crate::fixed::lemma_sqrt_unique;
use crate::fixed::rdiv;
use crate::fixed::SCALE;
use crate::srgb::byte_of;
use crate::srgb::channel_of_byte;
use crate::srgb::compressed_of_xyz;
use crate::srgb::gamma_expand_spec;
use crate::srgb::in_srgb_gamut;
use crate::srgb::Srgb;
use vstd::prelude::*;
use vstd::std_specs::cmp::PartialEqSpec;

verus! {

/// Black is a fixed point of the whole conversion graph: the sRGB
/// color of the byte triple (0, 0, 0) maps to XYZ (0, 0, 0), on to
/// CIELAB (0, 0, 0) and CIELCh (0, 0, 0), exactly; and back through
/// every inverse edge, black returns to black, still exactly.
pub proof fn lemma_black_is_fixed_point()
    ensures
        channel_of_byte(0) == 0,
        xyz_of_srgb((Srgb { r: 0, g: 0, b: 0 })) == (0int, 0int, 0int),
        lab_of_xyz(0, 0, 0) == (0int, 0int, 0int),
        lch_of_lab(0, 0, 0) == (0int, 0int, 0int),
        lab_of_lch(0, 0, 0) == (0int, 0int, 0int),
        xyz_of_lab(0, 0, 0) == (0int, 0int, 0int),
        in_srgb_gamut(0, 0, 0),
        compressed_of_xyz(0, 0, 0) == (0int, 0int, 0int),
{
    lemma_d65_value();
    lemma_rdiv_zero(255);
    lemma_rdiv_zero(1292);
    lemma_rdiv_zero(100);
    lemma_rdiv_zero(21205643662014210);
    lemma_rdiv_zero(17671369718345175);
    lemma_rdiv_zero(318084654930213150);
    lemma_rdiv_zero(3354167734);
    lemma_rdiv_zero(678711128818841000);
    lemma_rdiv_zero(107123487643);
    lemma_rdiv_zero(9504559);
    lemma_rdiv_zero(10000000);
    lemma_rdiv_zero(10890578);
    lemma_rdiv_zero(3132);
    lemma_rdiv_zero(500);
    lemma_rdiv_zero(200);
    lemma_rdiv_zero(24389);
    assert(is_sqrt(0, 0));
    lemma_sqrt_unique(0, 0);
    assert(rdiv(0 + 16 * (SCALE as int), 4) == 40000000) by {
        lemma_rdiv_exact(40000000, 4);
    }
}

/// White is treated consistently: the byte 255 encodes a full-scale
/// channel; a full-scale channel is its own linear value; the XYZ
/// color of full-scale white is the derived D65 reference white; and
/// D65 in turn maps to CIELAB lightness exactly 100 with both
/// opponent axes exactly 0, and back to D65 exactly.
pub proof fn lemma_white_chain()
    ensures
        channel_of_byte(255) == SCALE,
        gamma_expand_spec(SCALE as int) == SCALE,
        xyz_of_srgb((Srgb { r: SCALE, g: SCALE, b: SCALE })) == d65_spec(),
        d65_spec() == (9504559int, 10000000int, 10890578int),
        lab_of_xyz(9504559, 10000000, 10890578) == (1000000000int, 0int, 0int),
        xyz_of_lab(1000000000, 0, 0) == (9504559int, 10000000int, 10890578int),
{
    lemma_d65_value();
    // channel_of_byte(255) = 255/255 at scale: exact.
    lemma_rdiv_exact(10000000, 255);
    assert(255 * (SCALE as int) == 10000000 * 255);
    // gamma_expand at full scale: u = 1, u^2 = 1, (u^2)^(1/5) = 1.
    assert(1000 * ((SCALE as int) + 550000) == 10000000 * 1055);
    lemma_rdiv_exact(10000000, 1055);
    assert(rdiv(10550000000, 1055) == 10000000);
    lemma_rdiv_exact(10000000, 10000000);
    assert(rdiv(100000000000000, 10000000) == 10000000);
    assert(1000000000000000000000 * 10000000int * 10000000int
        == 100000000000000000000000000000000000int) by (nonlinear_arith);
    assert(is_root5(100000000000000000000000000000000000int, 10000000int)) by (nonlinear_arith);
    lemma_root5_unique(100000000000000000000000000000000000int, 10000000int);
    // ratios against D65 are exactly one at D65 itself.
    lemma_rdiv_exact(10000000, 9504559);
    assert(9504559 * (SCALE as int) == 10000000 * 9504559);
    lemma_rdiv_exact(10000000, 10890578);
    assert(10890578 * (SCALE as int) == 10000000 * 10890578);
    // the cube root branch of f at a unit ratio: exactly 3132 · SCALE.
    assert(30723115968 * (SCALE as int) == 307231159680000000);
    assert(307231159680000000 * (SCALE as int) == 3072311596800000000000000);
    assert(is_cbrt(3072311596800000000000000int * 10000000int, 31320000000int)) by (nonlinear_arith);
    lemma_cbrt_unique(3072311596800000000000000int * 10000000int, 31320000000int);
    // lightness: (116 · f - 16 · 3132 · SCALE) / 3132 at f = 3132 · SCALE.
    assert(116 * 31320000000int - 16 * 3132 * (SCALE as int) == 1000000000 * 3132);
    lemma_rdiv_exact(1000000000, 3132);
    lemma_rdiv_zero(3132);
    lemma_rdiv_zero(500);
    lemma_rdiv_zero(200);
    // and back: p = 29 · SCALE, whose cube is exactly D65-relative 1.
    assert(1000000000 + 16 * (SCALE as int) == 290000000 * 4);
    lemma_rdiv_exact(290000000, 4);
    assert(290000000int * 290000000int == 84100000000000000int) by (nonlinear_arith);
    assert(84100000000000000int * 290000000int == 24389000000000000000000000int)
        by (nonlinear_arith);
    assert(290000000int * 290000000int * 290000000int == 10000000 * 2438900000000000000int);
    lemma_rdiv_exact(10000000, 2438900000000000000);
    lemma_rdiv_exact(9504559, 10000000);
    assert(9504559 * 10000000int == 9504559int * (SCALE as int));
    lemma_rdiv_exact(10000000, 10000000);
    lemma_rdiv_exact(10890578, 10000000);
    assert(10890578 * 10000000int == 10890578int * (SCALE as int));
}

/// The derived D65 constant and the conversion of pure white sRGB
/// are the same computation: the matrix row sums.
pub proof fn lemma_d65_matches_white_conversion()
    ensures
        channel_of_byte(255) == SCALE,
        xyz_of_srgb((Srgb { r: SCALE, g: SCALE, b: SCALE })) == d65_spec(),
{
    lemma_white_chain();
}

/// Round trip on the neutral-branch of the opponent plane: a CIELAB
/// color with `b == 0` and `a >= 0` survives the polar trip to
/// CIELCh and back exactly — its chroma is exactly `a`, its hue
/// exactly zero, and the Cartesian reconstruction returns exactly
/// `(l, a, 0)`.
pub proof fn lemma_lab_lch_round_trip_on_neutral_branch(l: int, a: int)
    requires
        0 <= a,
    ensures
        lch_of_lab(l, a, 0) == (l, a, 0int),
        lab_of_lch(l, a, 0) == (l, a, 0int),
{
    // chroma: the square root of an exact square.
    assert(a * a + 0 * 0 == a * a);
    assert(is_sqrt(a * a, a)) by (nonlinear_arith)
        requires
            0 <= a,
    ;
    lemma_sqrt_unique(a * a, a);
    // hue: the arctangent of (a, 0) is exactly zero.
    if a != 0 {
        lemma_rdiv_zero(a);
        assert(0 * (SCALE as int) == 0);
        lemma_atan_poly_zero();
    }
    // reconstruction: cosine of zero is exactly one, sine exactly zero.
    lemma_trig_at_zero();
    lemma_rdiv_exact(a, SCALE as int);
    lemma_rdiv_zero(SCALE as int);
    assert(a * 0 == 0) by (nonlinear_arith);
}

/// The series arctangent vanishes at zero.
proof fn lemma_atan_poly_zero()
    ensures
        crate::trig::atan_poly_spec(0) == 0,
        crate::trig::atan_core_spec(0) == 0,
{
    lemma_rdiv_zero(SCALE as int);
}

/// The series sine and cosine take their exact mathematical values
/// at angle zero: zero and one.
pub proof fn lemma_trig_at_zero()
    ensures
        crate::trig::sin_fx_spec(0) == 0,
        crate::trig::cos_fx_spec(0) == SCALE,
{
    lemma_rdiv_zero(crate::trig::TWO_PI_FX as int);
    lemma_rdiv_zero(SCALE as int);
    lemma_rdiv_zero(2 * SCALE as int);
    lemma_rdiv_zero(6 * SCALE as int);
    lemma_rdiv_zero(12 * SCALE as int);
    lemma_rdiv_zero(20 * SCALE as int);
    lemma_rdiv_zero(30 * SCALE as int);
    lemma_rdiv_zero(42 * SCALE as int);
    lemma_rdiv_zero(56 * SCALE as int);
    lemma_rdiv_zero(72 * SCALE as int);
    lemma_rdiv_zero(90 * SCALE as int);
    lemma_rdiv_zero(110 * SCALE as int);
    lemma_rdiv_zero(132 * SCALE as int);
    lemma_rdiv_zero(156 * SCALE as int);
}

/// CIELCh equality collapses the degenerate neutral axis: when both
/// chromas are exactly zero only the lightnesses are compared, and a
/// color with nonzero chroma never equals one with zero chroma.
pub proof fn lemma_degenerate_hue_equality(l: i64, c: i64, h1: i64, h2: i64)
    requires
        c != 0,
    ensures
        (Cielch { l, c: 0, h: h1 }).eq_spec(&(Cielch { l, c: 0, h: h2 })),
        !(Cielch { l, c, h: h1 }).eq_spec(&(Cielch { l, c: 0, h: h1 })),
{
}

/// sRGB equality is quantized: two colors are equal exactly when
/// their channels round to the same 8-bit triple, however their raw
/// fixed-point channels differ.
pub proof fn lemma_srgb_equality_on_bytes(x: Srgb, y: Srgb)
    ensures
        x.eq_spec(&y) <==> (byte_of(x.r as int) == byte_of(y.r as int) && byte_of(x.g as int)
            == byte_of(y.g as int) && byte_of(x.b as int) == byte_of(y.b as int)),
{
}

} // verus!
