//! Fixed-point scalar arithmetic: the scale shared by every color
//! component, rounded division, and integer square, cube and fifth
//! roots with exact floor contracts.

use vstd::arithmetic::div_mod::lemma_basic_div;
use vstd::arithmetic::div_mod::lemma_div_is_ordered;
use vstd::arithmetic::div_mod::lemma_fundamental_div_mod;
use vstd::arithmetic::div_mod::lemma_fundamental_div_mod_converse;
use vstd::arithmetic::div_mod::lemma_mod_bound;
use vstd::prelude::*;

verus! {

/// Number of fixed-point steps per unit. A component value `v`
/// represents the real number `v / SCALE`.
pub const SCALE: i64 = 10_000_000;

/// Division of `n` by a positive `d`, rounded half away from zero.
///
/// For `n >= 0` this is `floor((2n + d) / 2d)`, the usual
/// round-half-up; negative numerators mirror it, so the result is an
/// odd function of `n`.
pub open spec fn rdiv(n: int, d: int) -> int {
    if n >= 0 {
        (2 * n + d) / (2 * d)
    } else {
        -((2 * -n + d) / (2 * d))
    }
}

/// Rounded division differs from exact division by at most half a
/// step: `|n - rdiv(n, d) * d| <= d / 2`, stated doubled to stay in
/// integers.
pub proof fn lemma_rdiv_close(n: int, d: int)
    requires
        d > 0,
    ensures
        2 * (n - rdiv(n, d) * d) <= d,
        2 * (rdiv(n, d) * d - n) <= d,
{
    if n >= 0 {
        let q = (2 * n + d) / (2 * d);
        lemma_fundamental_div_mod(2 * n + d, 2 * d);
        lemma_mod_bound(2 * n + d, 2 * d);
        let r = (2 * n + d) % (2 * d);
        assert(2 * n + d == 2 * d * q + r);
        assert(2 * (n - q * d) == r - d) by (nonlinear_arith)
            requires
                2 * n + d == 2 * d * q + r,
        ;
    } else {
        let m = -n;
        let q = (2 * m + d) / (2 * d);
        lemma_fundamental_div_mod(2 * m + d, 2 * d);
        lemma_mod_bound(2 * m + d, 2 * d);
        let r = (2 * m + d) % (2 * d);
        assert(2 * m + d == 2 * d * q + r);
        assert(2 * (m - q * d) == r - d) by (nonlinear_arith)
            requires
                2 * m + d == 2 * d * q + r,
        ;
        assert(rdiv(n, d) == -q);
        assert(2 * (n - rdiv(n, d) * d) == d - r) by (nonlinear_arith)
            requires
                2 * (m - q * d) == r - d,
                m == -n,
                rdiv(n, d) == -q,
        ;
    }
}

/// `rdiv` of a nonnegative numerator is nonnegative, and of a
/// nonpositive one nonpositive.
pub proof fn lemma_rdiv_sign(n: int, d: int)
    requires
        d > 0,
    ensures
        n >= 0 ==> rdiv(n, d) >= 0,
        n <= 0 ==> rdiv(n, d) <= 0,
{
    if n >= 0 {
        lemma_fundamental_div_mod(2 * n + d, 2 * d);
        lemma_mod_bound(2 * n + d, 2 * d);
        let q = (2 * n + d) / (2 * d);
        let r = (2 * n + d) % (2 * d);
        assert(q >= 0) by (nonlinear_arith)
            requires
                2 * n + d == 2 * d * q + r,
                0 <= r < 2 * d,
                n >= 0,
                d > 0,
        ;
    }
    if n == 0 {
        lemma_basic_div(d, 2 * d);
    }
    if n < 0 {
        lemma_fundamental_div_mod(2 * -n + d, 2 * d);
        lemma_mod_bound(2 * -n + d, 2 * d);
        let q = (2 * -n + d) / (2 * d);
        let r = (2 * -n + d) % (2 * d);
        assert(q >= 0) by (nonlinear_arith)
            requires
                2 * -n + d == 2 * d * q + r,
                0 <= r < 2 * d,
                -n >= 0,
                d > 0,
        ;
    }
}

/// Executable rounded division on `i128`, exact against [`rdiv`].
pub fn rdiv_i128(n: i128, d: i128) -> (r: i128)
    requires
        d > 0,
        2 * d <= i128::MAX,
        2 * n + d <= i128::MAX,
        2 * -n + d <= i128::MAX,
    ensures
        r == rdiv(n as int, d as int),
{
    if n >= 0 {
        (2 * n + d) / (2 * d)
    } else {
        proof {
            lemma_rdiv_sign(-n as int, d as int);
            lemma_rdiv_close(-n as int, d as int);
        }
        -((2 * (-n) + d) / (2 * d))
    }
}

/// Rounded division is monotone in its numerator.
pub proof fn lemma_rdiv_mono(n1: int, n2: int, d: int)
    requires
        d > 0,
        n1 <= n2,
    ensures
        rdiv(n1, d) <= rdiv(n2, d),
{
    if n1 >= 0 {
        lemma_div_is_ordered(2 * n1 + d, 2 * n2 + d, 2 * d);
    } else if n2 < 0 {
        lemma_div_is_ordered(2 * -n2 + d, 2 * -n1 + d, 2 * d);
    } else {
        lemma_rdiv_sign(n1, d);
        lemma_rdiv_sign(n2, d);
    }
}

/// Rounded division of zero is zero.
pub proof fn lemma_rdiv_zero(d: int)
    requires
        d > 0,
    ensures
        rdiv(0, d) == 0,
{
    lemma_rdiv_sign(0, d);
}

/// Rounded division is exact on multiples of the divisor.
pub proof fn lemma_rdiv_exact(k: int, d: int)
    requires
        d > 0,
    ensures
        rdiv(k * d, d) == k,
{
    if k >= 0 {
        assert(k * d >= 0 && 2 * (k * d) + d == k * (2 * d) + d) by (nonlinear_arith)
            requires
                k >= 0,
                d > 0,
        ;
        lemma_fundamental_div_mod_converse(2 * (k * d) + d, 2 * d, k, d);
    } else {
        assert(k * d < 0 && 2 * -(k * d) + d == (-k) * (2 * d) + d) by (nonlinear_arith)
            requires
                k < 0,
                d > 0,
        ;
        lemma_fundamental_div_mod_converse(2 * -(k * d) + d, 2 * d, -k, d);
    }
}

/// If `|n| <= b * d` then `|rdiv(n, d)| <= b`.
pub proof fn lemma_rdiv_bound(n: int, d: int, b: int)
    requires
        d > 0,
        b >= 0,
        -(b * d) <= n <= b * d,
    ensures
        -b <= rdiv(n, d) <= b,
{
    lemma_rdiv_close(n, d);
    let q = rdiv(n, d);
    assert(-b <= q && q <= b) by (nonlinear_arith)
        requires
            2 * (n - q * d) <= d,
            2 * (q * d - n) <= d,
            -(b * d) <= n <= b * d,
            d > 0,
            b >= 0,
    ;
}

/// Executable rounded division with a quotient small enough for
/// `i32`.
pub fn rdiv_q(n: i64, d: i64) -> (r: i32)
    requires
        0 < d,
        -(i32::MAX as int) * d <= n <= (i32::MAX as int) * d,
    ensures
        r == rdiv(n as int, d as int),
{
    proof {
        lemma_rdiv_bound(n as int, d as int, i32::MAX as int);
    }
    rdiv_i128(n as i128, d as i128) as i32
}

/// Executable rounded division with a quotient small enough for
/// `i64`.
pub fn rdiv_i64(n: i128, d: i128) -> (r: i64)
    requires
        0 < d,
        2 * d <= i128::MAX,
        2 * n + d <= i128::MAX,
        2 * -n + d <= i128::MAX,
        -(i64::MAX as int) * d <= n <= (i64::MAX as int) * d,
    ensures
        r == rdiv(n as int, d as int),
{
    proof {
        lemma_rdiv_bound(n as int, d as int, i64::MAX as int);
    }
    rdiv_i128(n, d) as i64
}

pub open spec fn sq(x: int) -> int {
    x * x
}

pub open spec fn cube(x: int) -> int {
    x * x * x
}

pub open spec fn pow5(x: int) -> int {
    x * x * x * x * x
}

/// `r` is the floor of the real square root of `n`.
pub open spec fn is_sqrt(n: int, r: int) -> bool {
    0 <= r && sq(r) <= n < sq(r + 1)
}

/// `r` is the floor of the real cube root of `n`.
pub open spec fn is_cbrt(n: int, r: int) -> bool {
    0 <= r && cube(r) <= n < cube(r + 1)
}

/// `r` is the floor of the real fifth root of `n`.
pub open spec fn is_root5(n: int, r: int) -> bool {
    0 <= r && pow5(r) <= n < pow5(r + 1)
}

/// The floor of the real square root of `n`.
pub open spec fn sqrt(n: int) -> int {
    choose|r: int| is_sqrt(n, r)
}

/// The floor of the real cube root of `n`.
pub open spec fn cbrt(n: int) -> int {
    choose|r: int| is_cbrt(n, r)
}

/// The floor of the real fifth root of `n`.
pub open spec fn root5(n: int) -> int {
    choose|r: int| is_root5(n, r)
}

/// At most one `r` is the floor of the square root of `n`, so a
/// witness pins [`sqrt`] down.
pub proof fn lemma_sqrt_unique(n: int, r: int)
    requires
        is_sqrt(n, r),
    ensures
        sqrt(n) == r,
{
    assert(is_sqrt(n, r));
    let c = choose|x: int| is_sqrt(n, x);
    assert(is_sqrt(n, c));
    if c < r {
        assert(sq(c + 1) <= sq(r)) by (nonlinear_arith)
            requires
                0 <= c,
                c + 1 <= r,
        ;
    }
    if r < c {
        assert(sq(r + 1) <= sq(c)) by (nonlinear_arith)
            requires
                0 <= r,
                r + 1 <= c,
        ;
    }
}

/// At most one `r` is the floor of the cube root of `n`.
pub proof fn lemma_cbrt_unique(n: int, r: int)
    requires
        is_cbrt(n, r),
    ensures
        cbrt(n) == r,
{
    assert(is_cbrt(n, r));
    let c = choose|x: int| is_cbrt(n, x);
    assert(is_cbrt(n, c));
    if c < r {
        assert(cube(c + 1) <= cube(r)) by (nonlinear_arith)
            requires
                0 <= c,
                c + 1 <= r,
        ;
    }
    if r < c {
        assert(cube(r + 1) <= cube(c)) by (nonlinear_arith)
            requires
                0 <= r,
                r + 1 <= c,
        ;
    }
}

/// At most one `r` is the floor of the fifth root of `n`.
pub proof fn lemma_root5_unique(n: int, r: int)
    requires
        is_root5(n, r),
    ensures
        root5(n) == r,
{
    assert(is_root5(n, r));
    let c = choose|x: int| is_root5(n, x);
    assert(is_root5(n, c));
    if c < r {
        assert(pow5(c + 1) <= pow5(r)) by (nonlinear_arith)
            requires
                0 <= c,
                c + 1 <= r,
        ;
    }
    if r < c {
        assert(pow5(r + 1) <= pow5(c)) by (nonlinear_arith)
            requires
                0 <= r,
                r + 1 <= c,
        ;
    }
}

/// Integer square root by bisection: the floor of the real square
/// root of `n`.
pub fn isqrt(n: u128) -> (r: u128)
    requires
        n < 19807040628566084398385987584,  // 2^94
    ensures
        is_sqrt(n as int, r as int),
        r == sqrt(n as int),
{
    let mut lo: u128 = 0;
    let mut hi: u128 = 140737488355328;  // 2^47
    assert(sq(140737488355328int) == 19807040628566084398385987584int);
    while hi - lo > 1
        invariant
            lo < hi,
            hi <= 140737488355328,
            sq(lo as int) <= n < sq(hi as int),
        decreases hi - lo,
    {
        let mid = lo + (hi - lo) / 2;
        assert(mid * mid < 19807040628566084398385987584) by (nonlinear_arith)
            requires
                mid < 140737488355328,
        ;
        if mid * mid <= n {
            lo = mid;
        } else {
            hi = mid;
        }
    }
    proof {
        lemma_sqrt_unique(n as int, lo as int);
    }
    lo
}

/// Integer cube root by bisection: the floor of the real cube root of
/// `n`.
pub fn icbrt(n: u128) -> (r: u128)
    requires
        n < 324518553658426726783156020576256,  // 2^108
    ensures
        is_cbrt(n as int, r as int),
        r == cbrt(n as int),
{
    let mut lo: u128 = 0;
    let mut hi: u128 = 68719476736;  // 2^36
    assert(cube(68719476736int) == 324518553658426726783156020576256int);
    while hi - lo > 1
        invariant
            lo < hi,
            hi <= 68719476736,
            cube(lo as int) <= n < cube(hi as int),
        decreases hi - lo,
    {
        let mid = lo + (hi - lo) / 2;
        assert(mid * mid < 0x1000000000000000000 && mid * mid * mid
            < 324518553658426726783156020576256) by (nonlinear_arith)
            requires
                mid < 68719476736,
        ;
        if mid * mid * mid <= n {
            lo = mid;
        } else {
            hi = mid;
        }
    }
    proof {
        lemma_cbrt_unique(n as int, lo as int);
    }
    lo
}

/// Integer fifth root by bisection: the floor of the real fifth root
/// of `n`.
pub fn iroot5(n: u128) -> (r: u128)
    requires
        n < 42535295865117307932921825928971026432,  // 2^125
    ensures
        is_root5(n as int, r as int),
        r == root5(n as int),
{
    let mut lo: u128 = 0;
    let mut hi: u128 = 33554432;  // 2^25
    assert(pow5(33554432int) == 42535295865117307932921825928971026432int);
    while hi - lo > 1
        invariant
            lo < hi,
            hi <= 33554432,
            pow5(lo as int) <= n < pow5(hi as int),
        decreases hi - lo,
    {
        let mid = lo + (hi - lo) / 2;
        assert(mid * mid < 0x4000000000000 && mid * mid * mid < 0x8000000000000000000
            && mid * mid * mid * mid < 0x10000000000000000000000000
            && mid * mid * mid * mid * mid < 42535295865117307932921825928971026432)
            by (nonlinear_arith)
            requires
                mid < 33554432,
        ;
        if mid * mid * mid * mid * mid <= n {
            lo = mid;
        } else {
            hi = mid;
        }
    }
    proof {
        lemma_root5_unique(n as int, lo as int);
    }
    lo
}

} // verus!
