//! Fixed-point circular functions: sine, cosine and the two-argument
//! arctangent, used by the CIELAB ↔ CIELCh coordinate change.
//!
//! Angles are radians at the component scale. Each function first
//! reduces its argument with the fixed-point circle constants below,
//! then evaluates a truncated Taylor series in integer arithmetic;
//! the specification functions restate that computation exactly, so
//! every result is pinned to a deterministic value.

use crate::fixed::lemma_rdiv_bound;
use crate::fixed::lemma_rdiv_close;
use crate::fixed::lemma_rdiv_sign;
use crate::fixed::rdiv;
use crate::fixed::rdiv_i128;
use crate::fixed::rdiv_q;
use crate::fixed::SCALE;
use vstd::prelude::*;

verus! {

/// π at the component scale, rounded to the nearest step.
pub const PI_FX: i64 = 31_415_927;

/// 2π at the component scale, rounded to the nearest step.
pub const TWO_PI_FX: i64 = 62_831_853;

/// π/2 at the component scale, rounded down.
pub const HALF_PI_FX: i64 = 15_707_963;

/// π/4 at the component scale, rounded to the nearest step.
pub const QUARTER_PI_FX: i64 = 7_853_982;

/// tan(π/8) at the component scale, rounded to the nearest step.
pub const OCTANT_FX: i64 = 4_142_136;

/// One argument-range reduction: the representative of `h` modulo 2π
/// that is closest to zero.
pub open spec fn reduce_spec(h: int) -> int {
    h - rdiv(h, TWO_PI_FX as int) * (TWO_PI_FX as int)
}

/// The sine Taylor series through the 13th power, as evaluated by
/// [`sin_core`], for arguments reduced to about [-π/2, π/2].
pub open spec fn sin_core_spec(x: int) -> int {
    let s = SCALE as int;
    let w = rdiv(x * x, s);
    let a1 = s - rdiv(w * s, 156 * s);
    let a2 = s - rdiv(w * a1, 110 * s);
    let a3 = s - rdiv(w * a2, 72 * s);
    let a4 = s - rdiv(w * a3, 42 * s);
    let a5 = s - rdiv(w * a4, 20 * s);
    let a6 = s - rdiv(w * a5, 6 * s);
    rdiv(x * a6, s)
}

/// The cosine Taylor series through the 12th power, as evaluated by
/// [`cos_core`], for arguments reduced to about [0, π/2].
pub open spec fn cos_core_spec(x: int) -> int {
    let s = SCALE as int;
    let w = rdiv(x * x, s);
    let a1 = s - rdiv(w * s, 132 * s);
    let a2 = s - rdiv(w * a1, 90 * s);
    let a3 = s - rdiv(w * a2, 56 * s);
    let a4 = s - rdiv(w * a3, 30 * s);
    let a5 = s - rdiv(w * a4, 12 * s);
    s - rdiv(w * a5, 2 * s)
}

/// Saturation of a series value at the mathematical range of sine
/// and cosine: the truncated series can overshoot one unit by a few
/// steps near the extremes, and the overshoot carries no
/// information.
pub open spec fn unit_clamp_spec(v: int) -> int {
    if v > SCALE as int {
        SCALE as int
    } else if v < -(SCALE as int) {
        -(SCALE as int)
    } else {
        v
    }
}

/// Sine of `h`: reduce modulo 2π, fold into [-π/2, π/2] by the
/// reflection sin(π - x) == sin(x), then the series, saturated at
/// the unit range.
pub open spec fn sin_fx_spec(h: int) -> int {
    let r = reduce_spec(h);
    if r > HALF_PI_FX as int {
        unit_clamp_spec(sin_core_spec(PI_FX as int - r))
    } else if r < -(HALF_PI_FX as int) {
        unit_clamp_spec(-sin_core_spec(PI_FX as int + r))
    } else {
        unit_clamp_spec(sin_core_spec(r))
    }
}

/// Cosine of `h`: reduce modulo 2π, use evenness, fold into
/// [0, π/2] by cos(π - x) == -cos(x), then the series, saturated at
/// the unit range.
pub open spec fn cos_fx_spec(h: int) -> int {
    let r = reduce_spec(h);
    let x = if r >= 0 {
        r
    } else {
        -r
    };
    if x > HALF_PI_FX as int {
        unit_clamp_spec(-cos_core_spec(PI_FX as int - x))
    } else {
        unit_clamp_spec(cos_core_spec(x))
    }
}

/// The arctangent Taylor series through the 13th power, as evaluated
/// by [`atan_poly`], for ratios in about [-tan(π/8), 1].
pub open spec fn atan_poly_spec(u: int) -> int {
    let s = SCALE as int;
    let w = rdiv(u * u, s);
    let a1 = rdiv(s, 11) - rdiv(w * rdiv(s, 13), s);
    let a2 = rdiv(s, 9) - rdiv(w * a1, s);
    let a3 = rdiv(s, 7) - rdiv(w * a2, s);
    let a4 = rdiv(s, 5) - rdiv(w * a3, s);
    let a5 = rdiv(s, 3) - rdiv(w * a4, s);
    let q = s - rdiv(w * a5, s);
    rdiv(u * q, s)
}

/// Arctangent of a ratio `t` in [0, 1]: ratios above tan(π/8) are
/// folded around π/4 by atan(t) == π/4 + atan((t - 1) / (t + 1)).
pub open spec fn atan_core_spec(t: int) -> int {
    let s = SCALE as int;
    if t > OCTANT_FX as int {
        QUARTER_PI_FX as int + atan_poly_spec(rdiv((t - s) * s, t + s))
    } else {
        atan_poly_spec(t)
    }
}

/// Two-argument arctangent of `b / a`, by octant reduction to a ratio
/// of magnitudes in [0, 1]. Both arguments zero yield zero; the
/// result lies in about (-π, π], with the negative real axis mapped
/// to π.
pub open spec fn atan2_fx_spec(b: int, a: int) -> int {
    let s = SCALE as int;
    if a == 0 && b == 0 {
        0
    } else {
        let aa = if a >= 0 {
            a
        } else {
            -a
        };
        let ab = if b >= 0 {
            b
        } else {
            -b
        };
        let base = if ab <= aa {
            atan_core_spec(rdiv(ab * s, aa))
        } else {
            HALF_PI_FX as int - atan_core_spec(rdiv(aa * s, ab))
        };
        if a >= 0 {
            if b >= 0 {
                base
            } else {
                -base
            }
        } else {
            if b >= 0 {
                PI_FX as int - base
            } else {
                -(PI_FX as int - base)
            }
        }
    }
}

/// Series kernel for sine on reduced arguments.
fn sin_core(x: i32) -> (r: i32)
    requires
        -15707965 <= x <= 15707965,
    ensures
        r == sin_core_spec(x as int),
        -23012995 <= r <= 23012995,
{
    proof {
        assert(0 <= (x as int) * (x as int) <= 246740164441225) by (nonlinear_arith)
            requires
                -15707965 <= x <= 15707965,
        ;
    }
    let nw: i64 = (x as i64) * (x as i64);
    proof {
        lemma_rdiv_bound(nw as int, SCALE as int, 24674017);
        lemma_rdiv_sign(nw as int, SCALE as int);
    }
    let w: i32 = rdiv_q(nw, SCALE);
    proof {
        assert(0 <= (w as int) * (SCALE as int) <= 246740170000000) by (nonlinear_arith)
            requires
                0 <= w <= 24674017,
        ;
    }
    let n1: i64 = (w as i64) * (SCALE as i64);
    proof {
        lemma_rdiv_bound(n1 as int, 156 * SCALE as int, 158167);
    }
    let a1: i32 = (SCALE as i32) - rdiv_q(n1, 156 * SCALE);
    proof {
        assert(-250642785246839 <= (w as int) * (a1 as int) <= 250642785246839) by (nonlinear_arith)
            requires
                0 <= w <= 24674017,
                -10158167 <= a1 <= 10158167,
        ;
    }
    let n2: i64 = (w as i64) * (a1 as i64);
    proof {
        lemma_rdiv_bound(n2 as int, 110 * SCALE as int, 227858);
    }
    let a2: i32 = (SCALE as i32) - rdiv_q(n2, 110 * SCALE);
    proof {
        assert(-252362342165586 <= (w as int) * (a2 as int) <= 252362342165586) by (nonlinear_arith)
            requires
                0 <= w <= 24674017,
                -10227858 <= a2 <= 10227858,
        ;
    }
    let n3: i64 = (w as i64) * (a2 as i64);
    proof {
        lemma_rdiv_bound(n3 as int, 72 * SCALE as int, 350504);
    }
    let a3: i32 = (SCALE as i32) - rdiv_q(n3, 72 * SCALE);
    proof {
        assert(-255388511654568 <= (w as int) * (a3 as int) <= 255388511654568) by (nonlinear_arith)
            requires
                0 <= w <= 24674017,
                -10350504 <= a3 <= 10350504,
        ;
    }
    let n4: i64 = (w as i64) * (a3 as i64);
    proof {
        lemma_rdiv_bound(n4 as int, 42 * SCALE as int, 608068);
    }
    let a4: i32 = (SCALE as i32) - rdiv_q(n4, 42 * SCALE);
    proof {
        assert(-261743650169156 <= (w as int) * (a4 as int) <= 261743650169156) by (nonlinear_arith)
            requires
                0 <= w <= 24674017,
                -10608068 <= a4 <= 10608068,
        ;
    }
    let n5: i64 = (w as i64) * (a4 as i64);
    proof {
        lemma_rdiv_bound(n5 as int, 20 * SCALE as int, 1308719);
    }
    let a5: i32 = (SCALE as i32) - rdiv_q(n5, 20 * SCALE);
    proof {
        assert(-279031524854223 <= (w as int) * (a5 as int) <= 279031524854223) by (nonlinear_arith)
            requires
                0 <= w <= 24674017,
                -11308719 <= a5 <= 11308719,
        ;
    }
    let n6: i64 = (w as i64) * (a5 as i64);
    proof {
        lemma_rdiv_bound(n6 as int, 6 * SCALE as int, 4650526);
    }
    let a6: i32 = (SCALE as i32) - rdiv_q(n6, 6 * SCALE);
    proof {
        assert(-230129949639590 <= (x as int) * (a6 as int) <= 230129949639590) by (nonlinear_arith)
            requires
                -15707965 <= x <= 15707965,
                -14650526 <= a6 <= 14650526,
        ;
    }
    let nf: i64 = (x as i64) * (a6 as i64);
    proof {
        lemma_rdiv_bound(nf as int, SCALE as int, 23012995);
    }
    rdiv_q(nf, SCALE)
}

/// Series kernel for cosine on reduced arguments.
fn cos_core(x: i32) -> (r: i32)
    requires
        -15707965 <= x <= 15707965,
    ensures
        r == cos_core_spec(x as int),
        -25091790 <= r <= 25091790,
{
    proof {
        assert(0 <= (x as int) * (x as int) <= 246740164441225) by (nonlinear_arith)
            requires
                -15707965 <= x <= 15707965,
        ;
    }
    let nw: i64 = (x as i64) * (x as i64);
    proof {
        lemma_rdiv_bound(nw as int, SCALE as int, 24674017);
        lemma_rdiv_sign(nw as int, SCALE as int);
    }
    let w: i32 = rdiv_q(nw, SCALE);
    proof {
        assert(0 <= (w as int) * (SCALE as int) <= 246740170000000) by (nonlinear_arith)
            requires
                0 <= w <= 24674017,
        ;
    }
    let n1: i64 = (w as i64) * (SCALE as i64);
    proof {
        lemma_rdiv_bound(n1 as int, 132 * SCALE as int, 186925);
    }
    let a1: i32 = (SCALE as i32) - rdiv_q(n1, 132 * SCALE);
    proof {
        assert(-251352360627725 <= (w as int) * (a1 as int) <= 251352360627725) by (nonlinear_arith)
            requires
                0 <= w <= 24674017,
                -10186925 <= a1 <= 10186925,
        ;
    }
    let n2: i64 = (w as i64) * (a1 as i64);
    proof {
        lemma_rdiv_bound(n2 as int, 90 * SCALE as int, 279281);
    }
    let a2: i32 = (SCALE as i32) - rdiv_q(n2, 90 * SCALE);
    proof {
        assert(-253631154141777 <= (w as int) * (a2 as int) <= 253631154141777) by (nonlinear_arith)
            requires
                0 <= w <= 24674017,
                -10279281 <= a2 <= 10279281,
        ;
    }
    let n3: i64 = (w as i64) * (a2 as i64);
    proof {
        lemma_rdiv_bound(n3 as int, 56 * SCALE as int, 452913);
    }
    let a3: i32 = (SCALE as i32) - rdiv_q(n3, 56 * SCALE);
    proof {
        assert(-257915353061521 <= (w as int) * (a3 as int) <= 257915353061521) by (nonlinear_arith)
            requires
                0 <= w <= 24674017,
                -10452913 <= a3 <= 10452913,
        ;
    }
    let n4: i64 = (w as i64) * (a3 as i64);
    proof {
        lemma_rdiv_bound(n4 as int, 30 * SCALE as int, 859718);
    }
    let a4: i32 = (SCALE as i32) - rdiv_q(n4, 30 * SCALE);
    proof {
        assert(-267952866547206 <= (w as int) * (a4 as int) <= 267952866547206) by (nonlinear_arith)
            requires
                0 <= w <= 24674017,
                -10859718 <= a4 <= 10859718,
        ;
    }
    let n5: i64 = (w as i64) * (a4 as i64);
    proof {
        lemma_rdiv_bound(n5 as int, 12 * SCALE as int, 2232941);
    }
    let a5: i32 = (SCALE as i32) - rdiv_q(n5, 12 * SCALE);
    proof {
        assert(-301835794193997 <= (w as int) * (a5 as int) <= 301835794193997) by (nonlinear_arith)
            requires
                0 <= w <= 24674017,
                -12232941 <= a5 <= 12232941,
        ;
    }
    let n6: i64 = (w as i64) * (a5 as i64);
    proof {
        lemma_rdiv_bound(n6 as int, 2 * SCALE as int, 15091790);
    }
    (SCALE as i32) - rdiv_q(n6, 2 * SCALE)
}

/// Series kernel for arctangent of a reduced ratio.
fn atan_poly(u: i32) -> (r: i32)
    requires
        -10000000 <= u <= 10000000,
    ensures
        r == atan_poly_spec(u as int),
        -19551344 <= r <= 19551344,
{
    proof {
        assert(0 <= (u as int) * (u as int) <= 100000000000000) by (nonlinear_arith)
            requires
                -10000000 <= u <= 10000000,
        ;
    }
    let nw: i64 = (u as i64) * (u as i64);
    proof {
        lemma_rdiv_bound(nw as int, SCALE as int, 10000001);
        lemma_rdiv_sign(nw as int, SCALE as int);
    }
    let w: i32 = rdiv_q(nw, SCALE);
    let c13: i32 = rdiv_q(SCALE, 13);
    let c11: i32 = rdiv_q(SCALE, 11);
    let c9: i32 = rdiv_q(SCALE, 9);
    let c7: i32 = rdiv_q(SCALE, 7);
    let c5: i32 = rdiv_q(SCALE, 5);
    let c3: i32 = rdiv_q(SCALE, 3);
    assert(20000013int / 26int == 769231int);
    assert(c13 == 769231);
    assert(20000011int / 22int == 909091int);
    assert(c11 == 909091);
    assert(20000009int / 18int == 1111111int);
    assert(c9 == 1111111);
    assert(20000007int / 14int == 1428571int);
    assert(c7 == 1428571);
    assert(20000005int / 10int == 2000000int);
    assert(c5 == 2000000);
    assert(20000003int / 6int == 3333333int);
    assert(c3 == 3333333);
    proof {
        assert(0 <= (w as int) * (c13 as int) <= 7692317692310) by (nonlinear_arith)
            requires
                0 <= w <= 10000001,
                c13 == 769231,
        ;
    }
    let n1: i64 = (w as i64) * (c13 as i64);
    proof {
        lemma_rdiv_bound(n1 as int, SCALE as int, 769232);
    }
    let a1: i32 = c11 - rdiv_q(n1, SCALE);
    proof {
        assert(-16783231678323 <= (w as int) * (a1 as int) <= 16783231678323) by (nonlinear_arith)
            requires
                0 <= w <= 10000001,
                -1678323 <= a1 <= 1678323,
        ;
    }
    let n2: i64 = (w as i64) * (a1 as i64);
    proof {
        lemma_rdiv_bound(n2 as int, SCALE as int, 1678324);
    }
    let a2: i32 = c9 - rdiv_q(n2, SCALE);
    proof {
        assert(-27894352789435 <= (w as int) * (a2 as int) <= 27894352789435) by (nonlinear_arith)
            requires
                0 <= w <= 10000001,
                -2789435 <= a2 <= 2789435,
        ;
    }
    let n3: i64 = (w as i64) * (a2 as i64);
    proof {
        lemma_rdiv_bound(n3 as int, SCALE as int, 2789436);
    }
    let a3: i32 = c7 - rdiv_q(n3, SCALE);
    proof {
        assert(-42180074218007 <= (w as int) * (a3 as int) <= 42180074218007) by (nonlinear_arith)
            requires
                0 <= w <= 10000001,
                -4218007 <= a3 <= 4218007,
        ;
    }
    let n4: i64 = (w as i64) * (a3 as i64);
    proof {
        lemma_rdiv_bound(n4 as int, SCALE as int, 4218008);
    }
    let a4: i32 = c5 - rdiv_q(n4, SCALE);
    proof {
        assert(-62180086218008 <= (w as int) * (a4 as int) <= 62180086218008) by (nonlinear_arith)
            requires
                0 <= w <= 10000001,
                -6218008 <= a4 <= 6218008,
        ;
    }
    let n5: i64 = (w as i64) * (a4 as i64);
    proof {
        lemma_rdiv_bound(n5 as int, SCALE as int, 6218009);
    }
    let a5: i32 = c3 - rdiv_q(n5, SCALE);
    proof {
        assert(-95513429551342 <= (w as int) * (a5 as int) <= 95513429551342) by (nonlinear_arith)
            requires
                0 <= w <= 10000001,
                -9551342 <= a5 <= 9551342,
        ;
    }
    let n6: i64 = (w as i64) * (a5 as i64);
    proof {
        lemma_rdiv_bound(n6 as int, SCALE as int, 9551343);
    }
    let q: i32 = (SCALE as i32) - rdiv_q(n6, SCALE);
    proof {
        assert(-195513430000000 <= (u as int) * (q as int) <= 195513430000000) by (nonlinear_arith)
            requires
                -10000000 <= u <= 10000000,
                -19551343 <= q <= 19551343,
        ;
    }
    let nf: i64 = (u as i64) * (q as i64);
    proof {
        lemma_rdiv_bound(nf as int, SCALE as int, 19551344);
    }
    rdiv_q(nf, SCALE)
}

/// Arctangent of a ratio in [0, 1], folded around π/4 when large.
fn atan_core(t: i32) -> (r: i32)
    requires
        0 <= t <= 10000000,
    ensures
        r == atan_core_spec(t as int),
        -19551344 <= r <= 27405326,
{
    if t > OCTANT_FX as i32 {
        let n: i64 = ((t as i64) - SCALE) * SCALE;
        let d: i64 = (t as i64) + SCALE;
        proof {
            lemma_rdiv_bound(n as int, d as int, 7071068);
            lemma_rdiv_sign(n as int, d as int);
        }
        let u: i32 = rdiv_q(n, d);
        (QUARTER_PI_FX as i32) + atan_poly(u)
    } else {
        atan_poly(t)
    }
}

/// The representative of `h` modulo 2π closest to zero, at most
/// half a circle in magnitude.
fn reduce(h: i64) -> (r: i32)
    ensures
        r == reduce_spec(h as int),
        -31415926 <= r <= 31415926,
{
    let k: i128 = rdiv_i128(h as i128, TWO_PI_FX as i128);
    proof {
        lemma_rdiv_bound(h as int, TWO_PI_FX as int, 146795000000);
        lemma_rdiv_close(h as int, TWO_PI_FX as int);
    }
    let r: i128 = (h as i128) - k * (TWO_PI_FX as i128);
    r as i32
}

/// Saturates a series value at the unit range.
fn unit_clamp(v: i64) -> (r: i64)
    ensures
        r == unit_clamp_spec(v as int),
        -SCALE <= r <= SCALE,
{
    if v > SCALE {
        SCALE
    } else if v < -SCALE {
        -SCALE
    } else {
        v
    }
}

/// Sine of the angle `h` (radians at the component scale).
pub fn sin_fx(h: i64) -> (r: i64)
    ensures
        r == sin_fx_spec(h as int),
        -SCALE <= r <= SCALE,
{
    let red: i32 = reduce(h);
    if red > HALF_PI_FX as i32 {
        unit_clamp(sin_core((PI_FX as i32) - red) as i64)
    } else if red < -(HALF_PI_FX as i32) {
        unit_clamp(-(sin_core((PI_FX as i32) + red) as i64))
    } else {
        unit_clamp(sin_core(red) as i64)
    }
}

/// Cosine of the angle `h` (radians at the component scale).
pub fn cos_fx(h: i64) -> (r: i64)
    ensures
        r == cos_fx_spec(h as int),
        -SCALE <= r <= SCALE,
{
    let red: i32 = reduce(h);
    let x: i32 = if red >= 0 {
        red
    } else {
        -red
    };
    if x > HALF_PI_FX as i32 {
        unit_clamp(-(cos_core((PI_FX as i32) - x) as i64))
    } else {
        unit_clamp(cos_core(x) as i64)
    }
}

/// Two-argument arctangent: the angle of the point `(a, b)`, in
/// radians at the component scale.
pub fn atan2_fx(b: i64, a: i64) -> (r: i64)
    ensures
        r == atan2_fx_spec(b as int, a as int),
        -74529216 <= r <= 74529216,
{
    if a == 0 && b == 0 {
        return 0;
    }
    let aa: i128 = if a < 0 {
        -(a as i128)
    } else {
        a as i128
    };
    let ab: i128 = if b < 0 {
        -(b as i128)
    } else {
        b as i128
    };
    let base: i64 = if ab <= aa {
        let n: i128 = ab * (SCALE as i128);
        proof {
            assert(0 <= n <= (SCALE as int) * aa) by (nonlinear_arith)
                requires
                    n == ab * (SCALE as int),
                    0 <= ab <= aa,
            ;
            lemma_rdiv_bound(n as int, aa as int, SCALE as int);
            lemma_rdiv_sign(n as int, aa as int);
        }
        let t: i32 = rdiv_i128(n, aa) as i32;
        atan_core(t) as i64
    } else {
        let n: i128 = aa * (SCALE as i128);
        proof {
            assert(0 <= n <= (SCALE as int) * ab) by (nonlinear_arith)
                requires
                    n == aa * (SCALE as int),
                    0 <= aa <= ab,
            ;
            lemma_rdiv_bound(n as int, ab as int, SCALE as int);
            lemma_rdiv_sign(n as int, ab as int);
        }
        let t: i32 = rdiv_i128(n, ab) as i32;
        HALF_PI_FX - (atan_core(t) as i64)
    };
    if a >= 0 {
        if b >= 0 {
            base
        } else {
            -base
        }
    } else {
        if b >= 0 {
            PI_FX - base
        } else {
            -(PI_FX - base)
        }
    }
}

} // verus!
