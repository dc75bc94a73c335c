//! Fixed-point scale and the shared rounding / wrapping helpers.
//!
//! A real number `x` is represented by the `i64` value `x * UNIT`.  Divisions
//! round to the nearest representable value, ties away from zero, which is
//! the same tie rule as `f64::round`.

use vstd::prelude::*;

verus! {

/// Fixed-point scale: the real value 1.0.
pub const UNIT: i64 = 255000;

/// The real value 100.0 (full saturation / lightness, in percent).
pub const PCT_FULL: i64 = 25_500_000;

/// The real value 360.0 (a full hue turn, in degrees).
pub const DEG_FULL: i64 = 91_800_000;

/// Quotient of `n / d` rounded to the nearest integer, ties away from zero.
/// Meaningful for `d > 0`.
pub open spec fn round_div(n: int, d: int) -> int {
    if n >= 0 {
        (2 * n + d) / (2 * d)
    } else {
        -((2 * -n + d) / (2 * d))
    }
}

/// Bound on the arguments accepted by the executable rounded division.
pub open spec fn round_div_args_ok(n: int, d: int) -> bool {
    0 < d <= 0x1000_0000_0000_0000 && -0x1000_0000_0000_0000 <= n <= 0x1000_0000_0000_0000
}

/// Executable rounded division (nearest, ties away from zero).
pub fn round_div_i64(n: i64, d: i64) -> (r: i64)
    requires
        round_div_args_ok(n as int, d as int),
    ensures
        r == round_div(n as int, d as int),
{
    if n >= 0 {
        let nn = n as u64;
        let dd = d as u64;
        ((2 * nn + dd) / (2 * dd)) as i64
    } else {
        let nn = (-n) as u64;
        let dd = d as u64;
        -(((2 * nn + dd) / (2 * dd)) as i64)
    }
}

/// Rounded division of an exact multiple of the divisor recovers the
/// multiplier.
pub proof fn lemma_round_div_exact(k: int, d: int)
    requires
        d >= 1,
    ensures
        round_div(k * d, d) == k,
{
    if k >= 0 {
        assert(k * d >= 0) by (nonlinear_arith)
            requires
                k >= 0 && d >= 1,
        ;
        assert(2 * (k * d) + d == k * (2 * d) + d) by (nonlinear_arith);
        vstd::arithmetic::div_mod::lemma_fundamental_div_mod_converse(
            2 * (k * d) + d,
            2 * d,
            k,
            d,
        );
    } else {
        assert(k * d < 0) by (nonlinear_arith)
            requires
                k < 0 && d >= 1,
        ;
        assert(2 * -(k * d) + d == (-k) * (2 * d) + d) by (nonlinear_arith);
        vstd::arithmetic::div_mod::lemma_fundamental_div_mod_converse(
            2 * -(k * d) + d,
            2 * d,
            -k,
            d,
        );
    }
}

/// Rounded division is monotone in the numerator.
pub proof fn lemma_round_div_ordered(n1: int, n2: int, d: int)
    requires
        d >= 1,
        n1 <= n2,
    ensures
        round_div(n1, d) <= round_div(n2, d),
{
    if n1 >= 0 {
        vstd::arithmetic::div_mod::lemma_div_is_ordered(2 * n1 + d, 2 * n2 + d, 2 * d);
    } else if n2 < 0 {
        vstd::arithmetic::div_mod::lemma_div_is_ordered(2 * -n2 + d, 2 * -n1 + d, 2 * d);
    } else {
        vstd::arithmetic::div_mod::lemma_div_is_ordered(d, 2 * -n1 + d, 2 * d);
        vstd::arithmetic::div_mod::lemma_div_is_ordered(d, 2 * n2 + d, 2 * d);
        assert(d / (2 * d) == 0) by {
            vstd::arithmetic::div_mod::lemma_fundamental_div_mod_converse(d, 2 * d, 0, d);
        }
    }
}

/// Rounded division of a value between two exact multiples lies between
/// the two multipliers.
pub proof fn lemma_round_div_between(n: int, d: int, lo: int, hi: int)
    requires
        d >= 1,
        lo * d <= n <= hi * d,
    ensures
        lo <= round_div(n, d) <= hi,
{
    lemma_round_div_exact(lo, d);
    lemma_round_div_exact(hi, d);
    lemma_round_div_ordered(lo * d, n, d);
    lemma_round_div_ordered(n, hi * d, d);
}

/// Rounded division misses the true quotient by at most half a divisor
/// either way.
pub proof fn lemma_round_div_err(n: int, d: int)
    requires
        d >= 1,
    ensures
        -d <= 2 * (round_div(n, d) * d - n) <= d,
{
    if n >= 0 {
        vstd::arithmetic::div_mod::lemma_fundamental_div_mod(2 * n + d, 2 * d);
        vstd::arithmetic::div_mod::lemma_mod_bound(2 * n + d, 2 * d);
        let qq = (2 * n + d) / (2 * d);
        let rr = (2 * n + d) % (2 * d);
        assert(2 * n + d == (2 * d) * qq + rr);
        assert((2 * d) * qq == 2 * (qq * d)) by (nonlinear_arith);
        assert(2 * (qq * d - n) == d - rr);
        assert(round_div(n, d) == qq);
    } else {
        vstd::arithmetic::div_mod::lemma_fundamental_div_mod(2 * -n + d, 2 * d);
        vstd::arithmetic::div_mod::lemma_mod_bound(2 * -n + d, 2 * d);
        let qq = (2 * -n + d) / (2 * d);
        let rr = (2 * -n + d) % (2 * d);
        assert(2 * -n + d == (2 * d) * qq + rr);
        assert((2 * d) * qq == 2 * (qq * d)) by (nonlinear_arith);
        assert((-qq) * d == -(qq * d)) by (nonlinear_arith);
        assert(2 * ((-qq) * d - n) == rr - d);
        assert(round_div(n, d) == -qq);
    }
}

/// Rounded division of a value within half a divisor of an exact
/// multiple recovers the multiplier.
pub proof fn lemma_round_div_near(k: int, e: int, d: int)
    requires
        d >= 1,
        -d < 2 * e < d,
    ensures
        round_div(k * d + e, d) == k,
{
    let n = k * d + e;
    if n >= 0 {
        assert(k >= 0) by (nonlinear_arith)
            requires
                d >= 1 && 2 * e < d && k * d + e >= 0,
        ;
        assert(2 * n + d == k * (2 * d) + (2 * e + d)) by (nonlinear_arith)
            requires
                n == k * d + e,
        ;
        vstd::arithmetic::div_mod::lemma_fundamental_div_mod_converse(2 * n + d, 2 * d, k, 2 * e
            + d);
    } else {
        assert(2 * -n + d == (-k) * (2 * d) + (d - 2 * e)) by (nonlinear_arith)
            requires
                n == k * d + e,
        ;
        vstd::arithmetic::div_mod::lemma_fundamental_div_mod_converse(
            2 * -n + d,
            2 * d,
            -k,
            d - 2 * e,
        );
    }
}

/// A hue value reduced into `[0, DEG_FULL)`: the Euclidean remainder
/// modulo a full turn.
pub open spec fn wrap_hue(h: int) -> int {
    h % (DEG_FULL as int)
}

/// A saturation or lightness value clamped into `[0, PCT_FULL]`.
pub open spec fn clamp_pct(v: int) -> int {
    if v < 0 {
        0
    } else if v > PCT_FULL {
        PCT_FULL as int
    } else {
        v
    }
}

/// Executable hue wrap: remainder modulo a full turn, shifted into
/// `[0, DEG_FULL)` when the input is negative.
pub fn wrap_hue_i64(h: i64) -> (r: i64)
    ensures
        r == wrap_hue(h as int),
        0 <= r < DEG_FULL,
{
    if h >= 0 {
        ((h as u64) % (DEG_FULL as u64)) as i64
    } else {
        let neg = (-(h as i128)) as u64;
        let m = (neg % (DEG_FULL as u64)) as i64;
        proof {
            let hi = h as int;
            let dm = DEG_FULL as int;
            vstd::arithmetic::div_mod::lemma_fundamental_div_mod(-hi, dm);
            let k = (-hi) / dm;
            if m == 0 {
                vstd::arithmetic::div_mod::lemma_fundamental_div_mod_converse(hi, dm, -k, 0);
            } else {
                vstd::arithmetic::div_mod::lemma_fundamental_div_mod_converse(
                    hi,
                    dm,
                    -k - 1,
                    dm - m,
                );
            }
        }
        if m == 0 {
            0
        } else {
            DEG_FULL - m
        }
    }
}

/// Executable clamp into `[0, PCT_FULL]`.
pub fn clamp_pct_i64(v: i64) -> (r: i64)
    ensures
        r == clamp_pct(v as int),
{
    if v < 0 {
        0
    } else if v > PCT_FULL {
        PCT_FULL
    } else {
        v
    }
}

} // verus!
