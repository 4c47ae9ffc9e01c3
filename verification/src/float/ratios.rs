//! Whole numbers, and their ratios.

use super::format::{binary64, lemma_format_powers, scale_of, significand_of, value_of};
use super::number::Binary64;
use super::rounding::{nearest, rounding_keeps_order, rounding_keeps_values};
use vstd::arithmetic::power2::*;
use vstd::prelude::*;

verus! {

/// The highest power of two in a positive number.
proof fn lemma_highest_power(n: nat, limit: nat) -> (k: nat)
    requires
        0 < n < pow2(limit),
    ensures
        k < limit,
        pow2(k) <= n < pow2(k + 1),
    decreases limit,
{
    lemma2_to64();
    if limit == 0 {
        0
    } else if n >= pow2((limit - 1) as nat) {
        (limit - 1) as nat
    } else {
        lemma_highest_power(n, (limit - 1) as nat)
    }
}

/// A magnitude by its significand and its scale.
proof fn lemma_composed(significand: nat, scale: nat)
    requires
        binary64().hidden <= significand < 2 * binary64().hidden,
        scale <= 2045,
    ensures
        ({
            let f = binary64();
            let m = scale * f.hidden + significand;
            &&& 0 < m < f.infinity
            &&& value_of(f, m as nat) == significand * pow2(scale)
        }),
{
    let f = binary64();
    let h = f.hidden as nat;
    let m = scale * h + significand;
    assert(m == (scale + 1) * h + (significand - h)) by (nonlinear_arith)
        requires
            m == scale * h + significand,
    ;
    vstd::arithmetic::div_mod::lemma_fundamental_div_mod_converse(
        m as int,
        h as int,
        (scale + 1) as int,
        significand - h,
    );
    assert(scale * h <= 2045 * h) by (nonlinear_arith)
        requires
            scale <= 2045,
    ;
    assert(scale_of(f, m) == scale);
    assert(significand_of(f, m) == significand);
}

/// Whole numbers below two to the power of 53 are represented as they are.
pub proof fn integers_are_exact(n: nat)
    requires
        n < 0x20_0000_0000_0000,
    ensures
        ({
            let s = Binary64::of(n).signed();
            &&& !s.negative
            &&& s.is_finite(binary64())
            &&& s.is_zero() == (n == 0)
            &&& value_of(binary64(), s.magnitude as nat) == n * pow2(1074)
        }),
{
    let f = binary64();
    let unit = pow2(1074);
    lemma_format_powers(f);
    if n == 0 {
        super::format::lemma_split(f, 0);
        rounding_keeps_values(f, 0, 1);
        assert(0 * unit == 0);
    } else {
        let k = lemma_highest_power(n, 53);
        let up = (52 - k) as nat;
        let scale = (1022 + k) as nat;
        let p = pow2(up);
        lemma_pow2_adds(k, up);
        lemma_pow2_adds(k + 1, up);
        lemma_pow2_adds(up, scale);
        lemma_pow2_pos(up);
        let significand = n * p;
        assert(pow2(k) * p <= n * p < pow2(k + 1) * p) by (nonlinear_arith)
            requires
                pow2(k) <= n < pow2(k + 1),
                p > 0,
        ;
        lemma_composed(significand, scale);
        let m = (scale * f.hidden + significand) as nat;
        let q = pow2(scale);
        assert(n * p * q == n * (p * q)) by (nonlinear_arith);
        rounding_keeps_values(f, m, 1);
        assert(1 * value_of(f, m) == value_of(f, m));
    }
}

/// An order of products is kept by a common factor.
proof fn lemma_scaled(c: nat, n: nat, w: nat, x: nat, y: nat)
    ensures
        x * c >= y * n ==> (c * (x * w)) * (x * w) >= (n * (x * w)) * (y * w),
        x * c <= y * n ==> (c * (x * w)) * (x * w) <= (n * (x * w)) * (y * w),
{
    let u = x * w;
    let v = y * w;
    let a = x * c;
    let b = y * n;
    assert(c * (x * w) == (x * c) * w) by (nonlinear_arith);
    assert(n * (y * w) == (y * n) * w) by (nonlinear_arith);
    assert((n * u) * v == (n * v) * u) by (nonlinear_arith);
    if a >= b {
        assert(a * w >= b * w) by (nonlinear_arith)
            requires
                a >= b,
                w >= 0,
        ;
        let (l, r) = (c * u, n * v);
        assert(l * u >= r * u) by (nonlinear_arith)
            requires
                l >= r,
                u >= 0,
        ;
    }
    if a <= b {
        assert(a * w <= b * w) by (nonlinear_arith)
            requires
                a <= b,
                w >= 0,
        ;
        let (l, r) = (c * u, n * v);
        assert(l * u <= r * u) by (nonlinear_arith)
            requires
                l <= r,
                u >= 0,
        ;
    }
}

/// A ratio of whole numbers is above three quarters, as it is computed, exactly
/// if it is.
pub proof fn three_quarters_are_exact(c: nat, n: nat)
    requires
        c <= n,
        0 < n <= 0x8_0000_0000_0000,
    ensures
        Binary64::of(c).div_spec(Binary64::of(n)).gt(Binary64 { bits: 0x3fe8_0000_0000_0000 })
            == (4 * c > 3 * n),
{
    let f = binary64();
    let u = pow2(1074);
    let t: nat = 0x3fe8_0000_0000_0000;
    let s: nat = 0x18_0000_0000_0000;
    let x: nat = 0x20_0000_0000_0000;
    integers_are_exact(c);
    integers_are_exact(n);
    lemma_composed(s, 1021);
    lemma_composed(s + 1, 1021);
    let w = pow2(1021);
    lemma_pow2_pos(1021);
    lemma2_to64();
    lemma2_to64_rest();
    lemma_pow2_adds(53, 1021);
    assert(u == x * w);
    assert(s * w == value_of(f, t));
    assert((s + 1) * w == value_of(f, t + 1));
    let den = n * u;
    let num = (c * u) * u;
    assert(den > 0) by (nonlinear_arith)
        requires
            n > 0,
            u > 0,
            den == n * u,
    ;
    lemma_scaled(c, n, w, x, s);
    lemma_scaled(c, n, w, x, s + 1);
    if 4 * c > 3 * n {
        assert(x * c >= (s + 1) * n);
        rounding_keeps_values(f, t + 1, den);
        rounding_keeps_order(f, den * ((s + 1) * w), num, den);
        assert(nearest(f, num, den) >= t + 1);
    } else {
        assert(x * c <= s * n);
        rounding_keeps_values(f, t, den);
        rounding_keeps_order(f, num, den * (s * w), den);
        assert(nearest(f, num, den) <= t);
    }
}

} // verus!
