//! Fixed-point scalar arithmetic.
//!
//! A scalar is an `i64` holding `SCALE` units to one.  Multiplication and
//! division rescale their result and round toward negative infinity (the
//! Euclidean convention, which matches what `/` means in specifications).
//! `isqrt` is an exact integer square root used for vector lengths and for
//! the quadratic solver.

use vstd::prelude::*;

verus! {

use vstd::arithmetic::div_mod::lemma_fundamental_div_mod;
use vstd::arithmetic::div_mod::lemma_fundamental_div_mod_converse;

/// Number of fixed-point units to one: a stored `v` means the real `v / SCALE`.
pub const SCALE: i64 = 65536;

/// The product of two fixed-point scalars, rescaled and rounded down.
pub open spec fn fx_mul(a: int, b: int) -> int {
    (a * b) / (SCALE as int)
}

/// The quotient of two fixed-point scalars, rescaled and rounded down
/// (toward negative infinity for a positive divisor).
pub open spec fn fx_div(a: int, b: int) -> int {
    (a * SCALE) / b
}

/// The integer square root: the greatest `r >= 0` with `r * r <= x`.
pub open spec fn sqrt_of(x: int) -> int {
    choose|r: int| 0 <= r && #[trigger] (r * r) <= x && x < (r + 1) * (r + 1)
}

proof fn lemma_sqrt_exists(x: int)
    requires
        x >= 0,
    ensures
        exists|r: int| 0 <= r && #[trigger] (r * r) <= x && x < (r + 1) * (r + 1),
    decreases x,
{
    if x == 0 {
        assert(0 <= 0int && 0int * 0int <= x && x < (0int + 1) * (0int + 1));
    } else {
        lemma_sqrt_exists(x - 1);
        let r = choose|r: int| 0 <= r && #[trigger] (r * r) <= x - 1 && x - 1 < (r + 1) * (r + 1);
        if x < (r + 1) * (r + 1) {
            assert(0 <= r && r * r <= x && x < (r + 1) * (r + 1));
        } else {
            assert(x == (r + 1) * (r + 1));
            assert(x < ((r + 1) + 1) * ((r + 1) + 1)) by (nonlinear_arith)
                requires
                    x == (r + 1) * (r + 1),
                    r >= 0,
            ;
            assert(0 <= r + 1 && (r + 1) * (r + 1) <= x && x < ((r + 1) + 1) * ((r + 1) + 1));
        }
    }
}

/// `sqrt_of(x)` is the one value whose square brackets `x`.
pub proof fn lemma_sqrt_unique(x: int, r: int)
    requires
        0 <= r,
        r * r <= x,
        x < (r + 1) * (r + 1),
    ensures
        sqrt_of(x) == r,
{
    let s = sqrt_of(x);
    assert(0 <= s && s * s <= x && x < (s + 1) * (s + 1)) by {
        assert(0 <= r && r * r <= x && x < (r + 1) * (r + 1));
    }
    if s < r {
        assert((s + 1) * (s + 1) <= r * r) by (nonlinear_arith)
            requires
                0 <= s,
                s + 1 <= r,
        ;
    } else if r < s {
        assert((r + 1) * (r + 1) <= s * s) by (nonlinear_arith)
            requires
                0 <= r,
                r + 1 <= s,
        ;
    }
}

/// The defining bracketing property of `sqrt_of` on nonnegative arguments.
pub proof fn lemma_sqrt_of(x: int)
    requires
        x >= 0,
    ensures
        0 <= sqrt_of(x),
        sqrt_of(x) * sqrt_of(x) <= x,
        x < (sqrt_of(x) + 1) * (sqrt_of(x) + 1),
{
    lemma_sqrt_exists(x);
    let r = choose|r: int| 0 <= r && #[trigger] (r * r) <= x && x < (r + 1) * (r + 1);
    lemma_sqrt_unique(x, r);
}

/// Any `q` and `r` with `x == q * d + r` and `0 <= r < |d|` are the
/// Euclidean quotient and remainder of `x` by `d`.
proof fn lemma_div_converse_any(x: int, d: int, q: int, r: int)
    requires
        d != 0,
        0 <= r,
        d > 0 ==> r < d,
        d < 0 ==> r < -d,
        x == q * d + r,
    ensures
        q == x / d,
        r == x % d,
{
    if d > 0 {
        lemma_fundamental_div_mod_converse(x, d, q, r);
    } else {
        let q1 = x / d;
        let r1 = x % d;
        lemma_fundamental_div_mod(x, d);
        assert(0 <= r1 < -d);
        assert(q == q1 && r == r1) by (nonlinear_arith)
            requires
                d < 0,
                x == q * d + r,
                x == d * q1 + r1,
                0 <= r < -d,
                0 <= r1 < -d,
        ;
    }
}

/// Dividing by the negation of the divisor negates the Euclidean quotient.
pub proof fn lemma_div_neg_divisor(x: int, d: int)
    requires
        d > 0,
    ensures
        x / (-d) == -(x / d),
{
    lemma_fundamental_div_mod(x, d);
    let q = x / d;
    let r = x % d;
    assert(0 <= r < d);
    assert(x == (-q) * (-d) + r) by (nonlinear_arith)
        requires
            x == d * q + r,
    ;
    lemma_div_converse_any(x, -d, -q, r);
}

/// The Euclidean quotient never exceeds the dividend in magnitude.
pub proof fn lemma_div_magnitude(x: int, d: int)
    requires
        d != 0,
    ensures
        x >= 0 ==> -x <= x / d <= x,
        x < 0 ==> x <= x / d <= -x,
    decreases (if d < 0 { 1int } else { 0int }),
{
    if d < 0 {
        lemma_div_neg_divisor(x, -d);
        lemma_div_magnitude(x, -d);
    } else {
        lemma_fundamental_div_mod(x, d);
        let q = x / d;
        let r = x % d;
        assert(0 <= r < d);
        if x >= 0 {
            vstd::arithmetic::div_mod::lemma_div_pos_is_pos(x, d);
            assert(q <= x) by (nonlinear_arith)
                requires
                    x == d * q + r,
                    d >= 1,
                    0 <= r,
                    q >= 0,
            ;
        } else {
            vstd::arithmetic::div_mod::lemma_div_is_ordered(x, 0, d);
            vstd::arithmetic::div_mod::lemma_div_of0(d);
            assert(q >= x) by (nonlinear_arith)
                requires
                    x == d * q + r,
                    d >= 1,
                    0 <= r < d,
                    x < 0,
                    q <= 0,
            ;
        }
    }
}

/// Rescaling a scalar bounded by `m` gives a result within
/// `[-(m / SCALE) - 1, m / SCALE]`.
pub proof fn lemma_div_scale_sandwich(x: int, m: int)
    requires
        0 <= m,
        -m <= x <= m,
    ensures
        -(m / (SCALE as int)) - 1 <= x / (SCALE as int) <= m / (SCALE as int),
{
    let s = SCALE as int;
    vstd::arithmetic::div_mod::lemma_div_is_ordered(x, m, s);
    vstd::arithmetic::div_mod::lemma_div_is_ordered(-m, x, s);
    let u = m / s;
    let v = m % s;
    lemma_fundamental_div_mod(m, s);
    assert(0 <= v < s);
    if v == 0 {
        assert(-m == (-u) * s + 0) by (nonlinear_arith)
            requires
                m == s * u + 0,
        ;
        lemma_div_converse_any(-m, s, -u, 0);
    } else {
        assert(-m == (-u - 1) * s + (s - v)) by (nonlinear_arith)
            requires
                m == s * u + v,
        ;
        lemma_div_converse_any(-m, s, -u - 1, s - v);
    }
}

/// Bounds for a rescaled product of bounded scalars.
pub proof fn lemma_fx_mul_bound(a: int, b: int, ma: int, mb: int)
    requires
        0 <= ma,
        0 <= mb,
        -ma <= a <= ma,
        -mb <= b <= mb,
    ensures
        -((ma * mb) / (SCALE as int)) - 1 <= fx_mul(a, b) <= (ma * mb) / (SCALE as int),
{
    assert(-(ma * mb) <= a * b <= ma * mb) by (nonlinear_arith)
        requires
            0 <= ma,
            0 <= mb,
            -ma <= a <= ma,
            -mb <= b <= mb,
    ;
    assert(ma * mb >= 0) by (nonlinear_arith)
        requires
            0 <= ma,
            0 <= mb,
    ;
    lemma_div_scale_sandwich(a * b, ma * mb);
}

/// Fixed-point products of nonnegative scalars respect ordering.
pub proof fn lemma_fx_mul_mono2(a1: int, b1: int, a2: int, b2: int)
    requires
        0 <= a1 <= a2,
        0 <= b1 <= b2,
    ensures
        0 <= fx_mul(a1, b1) <= fx_mul(a2, b2),
{
    assert(0 <= a1 * b1 <= a2 * b2) by (nonlinear_arith)
        requires
            0 <= a1 <= a2,
            0 <= b1 <= b2,
    ;
    vstd::arithmetic::div_mod::lemma_div_is_ordered(a1 * b1, a2 * b2, SCALE as int);
    vstd::arithmetic::div_mod::lemma_div_pos_is_pos(a1 * b1, SCALE as int);
}

/// A fixed-point product of scalars in `[0, 1]` stays in `[0, 1]` and
/// under either factor.
pub proof fn lemma_fx_mul_unit(a: int, b: int)
    requires
        0 <= a <= SCALE,
        0 <= b <= SCALE,
    ensures
        0 <= fx_mul(a, b) <= b,
        fx_mul(a, b) <= SCALE,
{
    lemma_fx_mul_mono2(a, b, SCALE as int, b);
    vstd::arithmetic::div_mod::lemma_div_multiples_vanish(b, SCALE as int);
}

/// Euclidean division on `i128`: rounds toward negative infinity for a
/// positive divisor, matching what `/` means on `int` in specifications.
pub fn div_euclid_i128(a: i128, b: i128) -> (q: i128)
    requires
        b != 0,
        a != i128::MIN,
        b != i128::MIN,
    ensures
        q == a as int / b as int,
{
    if a >= 0 {
        if b > 0 {
            let q0: u128 = (a as u128) / (b as u128);
            proof {
                assert(a as int / b as int == (a as u128) as int / (b as u128) as int);
            }
            q0 as i128
        } else {
            // a >= 0, b < 0: the Euclidean quotient is -(a div |b|).
            let d: u128 = (-b) as u128;
            let q0: u128 = (a as u128) / d;
            proof {
                let di = d as int;
                let qi = q0 as int;
                let r0 = a as int % di;
                lemma_fundamental_div_mod(a as int, di);
                assert((b as int) * (-qi) == di * qi) by (nonlinear_arith)
                    requires
                        b as int == -di,
                ;
                assert(a as int == (-qi) * (b as int) + r0) by (nonlinear_arith)
                    requires
                        a as int == (b as int) * (-qi) + r0,
                ;
                lemma_div_converse_any(a as int, b as int, -qi, r0);
            }
            -(q0 as i128)
        }
    } else {
        // a < 0: divide |a| rounding up, since the quotient must round down.
        let x: u128 = (-a) as u128;
        if b > 0 {
            let d: u128 = b as u128;
            let c: u128 = (x - 1) / d;
            proof {
                let di = d as int;
                let ci = c as int;
                let r0 = (x - 1) as int % di;
                lemma_fundamental_div_mod((x - 1) as int, di);
                assert(di * (-(ci + 1)) == -(di * ci) - di) by (nonlinear_arith);
                assert(a as int == di * (-(ci + 1)) + (di - 1 - r0)) by {
                    assert((x - 1) as int == di * ci + r0);
                }
                assert(a as int == (-(ci + 1)) * (b as int) + (di - 1 - r0)) by (nonlinear_arith)
                    requires
                        a as int == di * (-(ci + 1)) + (di - 1 - r0),
                        b as int == di,
                ;
                lemma_div_converse_any(a as int, b as int, -(ci + 1), di - 1 - r0);
            }
            -((c + 1) as i128)
        } else {
            let d: u128 = (-b) as u128;
            let c: u128 = (x - 1) / d;
            proof {
                let di = d as int;
                let ci = c as int;
                let r0 = (x - 1) as int % di;
                lemma_fundamental_div_mod((x - 1) as int, di);
                assert((b as int) * (ci + 1) == -(di * ci) - di) by (nonlinear_arith)
                    requires
                        b as int == -di,
                ;
                assert(a as int == (b as int) * (ci + 1) + (di - 1 - r0)) by {
                    assert((x - 1) as int == di * ci + r0);
                }
                assert(a as int == (ci + 1) * (b as int) + (di - 1 - r0)) by (nonlinear_arith)
                    requires
                        a as int == (b as int) * (ci + 1) + (di - 1 - r0),
                ;
                lemma_div_converse_any(a as int, b as int, ci + 1, di - 1 - r0);
            }
            (c + 1) as i128
        }
    }
}

/// Integer square root by bisection: returns the greatest `r` with `r * r <= x`.
pub fn isqrt(x: u128) -> (r: u128)
    requires
        x < 0x40000000000000000000000000000000,  // 2^126
    ensures
        r * r <= x,
        x < (r + 1) * (r + 1),
        r == sqrt_of(x as int),
{
    if x == 0 {
        proof {
            lemma_sqrt_unique(x as int, 0);
        }
        return 0;
    }
    let mut lo: u128 = 0;
    let mut hi: u128 = 0x8000000000000000;  // 2^63
    proof {
        assert(0x8000000000000000u128 * 0x8000000000000000u128
            == 0x40000000000000000000000000000000);
    }
    while hi - lo > 1
        invariant
            lo < hi <= 0x8000000000000000,
            lo * lo <= x,
            x < hi * hi,
        decreases hi - lo,
    {
        let mid = lo + (hi - lo) / 2;
        assert(mid * mid <= 0x40000000000000000000000000000000u128) by (nonlinear_arith)
            requires
                mid <= 0x8000000000000000u128,
        ;
        if mid * mid <= x {
            lo = mid;
        } else {
            hi = mid;
        }
    }
    proof {
        lemma_sqrt_unique(x as int, lo as int);
    }
    lo
}

/// Fixed-point product: `(a * b) / SCALE`, rounded toward negative infinity.
pub fn fxmul(a: i64, b: i64) -> (r: i64)
    requires
        i64::MIN <= fx_mul(a as int, b as int) <= i64::MAX,
    ensures
        r == fx_mul(a as int, b as int),
{
    let p: i128 = (a as i128) * (b as i128);
    let q = div_euclid_i128(p, SCALE as i128);
    q as i64
}

/// Fixed-point quotient: `(a * SCALE) / b` under the Euclidean convention.
pub fn fxdiv(a: i64, b: i64) -> (r: i64)
    requires
        b != 0,
        i64::MIN <= fx_div(a as int, b as int) <= i64::MAX,
    ensures
        r == fx_div(a as int, b as int),
{
    let p: i128 = (a as i128) * (SCALE as i128);
    let q = div_euclid_i128(p, b as i128);
    q as i64
}

} // verus!
