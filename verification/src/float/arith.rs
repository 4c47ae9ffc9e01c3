//! Arithmetic, order and conversions of signed magnitudes.

use super::format::{
    lemma_format_powers, lemma_split, nan, scale_of, significand_of, split, value_of, Format,
    Signed,
};
use super::rounding::{in_step, lemma_nearest_expanded, nearest, power_of_two, round, bit_length};
use vstd::arithmetic::div_mod::*;
use vstd::arithmetic::mul::*;
use vstd::arithmetic::power2::*;
use vstd::prelude::*;

verus! {

/// The absolute value of an integer.
pub open spec fn distance(x: int) -> nat {
    if x < 0 {
        (-x) as nat
    } else {
        x as nat
    }
}

/// The sum of two numbers.
pub open spec fn sum(format: Format, a: Signed, b: Signed) -> Signed {
    if a.is_nan(format) || b.is_nan(format) {
        nan(format)
    } else if a.is_infinite(format) {
        if b.is_infinite(format) && a.negative != b.negative {
            nan(format)
        } else {
            a
        }
    } else if b.is_infinite(format) {
        b
    } else {
        let s = a.value(format) + b.value(format);
        Signed {
            negative: s < 0 || (s == 0 && a.negative && b.negative),
            magnitude: nearest(format, distance(s), 1) as u64,
        }
    }
}

/// The number with the opposite sign.
pub open spec fn negation(a: Signed) -> Signed {
    Signed { negative: !a.negative, magnitude: a.magnitude }
}

/// The product of two numbers.
pub open spec fn product(format: Format, a: Signed, b: Signed) -> Signed {
    if a.is_nan(format) || b.is_nan(format) {
        nan(format)
    } else if a.is_infinite(format) || b.is_infinite(format) {
        if a.is_zero() || b.is_zero() {
            nan(format)
        } else {
            Signed { negative: a.negative != b.negative, magnitude: format.infinity }
        }
    } else {
        Signed {
            negative: a.negative != b.negative,
            magnitude: nearest(
                format,
                value_of(format, a.magnitude as nat) * value_of(format, b.magnitude as nat),
                pow2(format.unit as nat),
            ) as u64,
        }
    }
}

/// The quotient of two numbers.
pub open spec fn quotient(format: Format, a: Signed, b: Signed) -> Signed {
    if a.is_nan(format) || b.is_nan(format) {
        nan(format)
    } else if a.is_infinite(format) {
        if b.is_infinite(format) {
            nan(format)
        } else {
            Signed { negative: a.negative != b.negative, magnitude: format.infinity }
        }
    } else if b.is_infinite(format) {
        Signed { negative: a.negative != b.negative, magnitude: 0 }
    } else if b.is_zero() {
        if a.is_zero() {
            nan(format)
        } else {
            Signed { negative: a.negative != b.negative, magnitude: format.infinity }
        }
    } else {
        Signed {
            negative: a.negative != b.negative,
            magnitude: nearest(
                format,
                value_of(format, a.magnitude as nat) * pow2(format.unit as nat),
                value_of(format, b.magnitude as nat),
            ) as u64,
        }
    }
}

/// Whether `a` is the greater of two numbers.
pub open spec fn exceeds(format: Format, a: Signed, b: Signed) -> bool {
    !a.is_nan(format) && !b.is_nan(format) && a.rank() > b.rank()
}

/// Whether two numbers are equal; the two zeros are.
pub open spec fn equals(format: Format, a: Signed, b: Signed) -> bool {
    !a.is_nan(format) && !b.is_nan(format) && a.rank() == b.rank()
}

/// The number nearest to `n / 2^places`.
pub open spec fn dyadic(format: Format, n: nat, places: nat) -> Signed {
    Signed {
        negative: false,
        magnitude: nearest(format, n * pow2((format.unit - places) as nat), 1) as u64,
    }
}

/// A number of one format in another.
pub open spec fn converted(from: Format, to: Format, a: Signed) -> Signed {
    if a.is_nan(from) {
        nan(to)
    } else if a.is_infinite(from) {
        Signed { negative: a.negative, magnitude: to.infinity }
    } else {
        Signed {
            negative: a.negative,
            magnitude: nearest(
                to,
                value_of(from, a.magnitude as nat) * pow2(to.unit as nat),
                pow2(from.unit as nat),
            ) as u64,
        }
    }
}

/// A number rounded to the nearest whole number, halves going up, and brought
/// into the range of a 64-bit counter. What is no number counts as zero.
pub open spec fn whole(format: Format, a: Signed) -> nat {
    if a.is_nan(format) || a.negative {
        0
    } else if a.is_infinite(format) {
        u64::MAX as nat
    } else {
        let one = pow2(format.unit as nat);
        let n = (2 * value_of(format, a.magnitude as nat) + one) / (2 * one);
        if n > u64::MAX {
            u64::MAX as nat
        } else {
            n
        }
    }
}

/// Values grow with magnitudes.
pub proof fn lemma_value_grows(format: Format, m1: nat, m2: nat)
    requires
        format.known(),
        m1 < m2,
        m2 < format.infinity,
    ensures
        value_of(format, m1) < value_of(format, m2),
{
    lemma_split(format, m1);
    lemma_split(format, m2);
    let h = format.hidden as nat;
    let (s1, k1) = (significand_of(format, m1), scale_of(format, m1));
    let (s2, k2) = (significand_of(format, m2), scale_of(format, m2));
    lemma_pow2_pos(k1);
    if k1 > k2 {
        assert(k1 * h + s1 > k2 * h + s2) by (nonlinear_arith)
            requires
                k1 >= k2 + 1,
                s1 >= h,
                s2 < 2 * h,
        ;
    } else if k1 == k2 {
        assert(s1 * pow2(k1) < s2 * pow2(k1)) by (nonlinear_arith)
            requires
                s1 < s2,
                pow2(k1) > 0,
        ;
    } else {
        lemma_pow2_unfold((k1 + 1) as nat);
        if k1 + 1 < k2 {
            lemma_pow2_strictly_increases((k1 + 1) as nat, k2);
        }
        assert(s1 * pow2(k1) < h * (2 * pow2(k1))) by (nonlinear_arith)
            requires
                s1 < 2 * h,
                pow2(k1) > 0,
        ;
        assert(h * (2 * pow2(k1)) <= s2 * pow2(k2)) by (nonlinear_arith)
            requires
                h <= s2,
                2 * pow2(k1) <= pow2(k2),
        ;
    }
}

/// Finite numbers are ordered as their values are.
pub proof fn order_is_numeric(format: Format, a: Signed, b: Signed)
    requires
        format.known(),
        a.is_finite(format),
        b.is_finite(format),
    ensures
        exceeds(format, a, b) == (a.value(format) > b.value(format)),
        equals(format, a, b) == (a.value(format) == b.value(format)),
{
    let (m1, m2) = (a.magnitude as nat, b.magnitude as nat);
    lemma_split(format, m1);
    lemma_split(format, m2);
    if m1 < m2 {
        lemma_value_grows(format, m1, m2);
    } else if m2 < m1 {
        lemma_value_grows(format, m2, m1);
    }
}

proof fn lemma_exact_step(num: nat, e: nat, a: nat)
    requires
        num == a * pow2(e),
    ensures
        in_step(num, 1 * pow2(e), a, false),
{
    let w = pow2(e);
    lemma_pow2_pos(e);
    assert(1 * w == w);
    assert(w * a == a * w && w * (a + 1) == a * w + w) by (nonlinear_arith);
}

/// The magnitude of the sum or difference of two finite magnitudes, the first
/// of which is not the smaller.
fn combine(format: &Format, large: u64, small: u64, subtract: bool) -> (m: u64)
    requires
        format.known(),
        small <= large,
        large < format.infinity,
    ensures
        m == nearest(
            *format,
            distance(
                if subtract {
                    value_of(*format, large as nat) - value_of(*format, small as nat)
                } else {
                    (value_of(*format, large as nat) + value_of(*format, small as nat)) as int
                },
            ),
            1,
        ),
        m <= format.infinity,
{
    let (s1, k1) = split(format, large);
    let (s2, k2) = split(format, small);
    let ghost v1 = value_of(*format, large as nat);
    let ghost v2 = value_of(*format, small as nat);
    proof {
        lemma_format_powers(*format);
        lemma_split(*format, large as nat);
        lemma_split(*format, small as nat);
        if small < large {
            lemma_value_grows(*format, small as nat, large as nat);
        }
        let h = format.hidden as nat;
        if k1 < k2 {
            assert(k2 * h + s2 > k1 * h + s1) by (nonlinear_arith)
                requires
                    k2 >= k1 + 1,
                    s2 >= h,
                    s1 < 2 * h,
            ;
        }
        lemma2_to64();
        assert(1 * pow2(0) == 1);
    }
    let ghost total = distance(
        if subtract {
            v1 - v2
        } else {
            (v1 + v2) as int
        },
    );
    let gap: u32 = k1 - k2;
    if gap < format.precision + 3 {
        // Close enough for an exact sum of the aligned significands.
        let factor = power_of_two(gap);
        proof {
            lemma_pow2_adds(k2 as nat, gap as nat);
            lemma_pow2_strictly_increases(gap as nat, 56);
            lemma2_to64_rest();
            let (f, w) = (factor as nat, pow2(k2 as nat));
            assert(s1 * f * w == s1 * (w * f)) by (nonlinear_arith);
            assert(s1 * f < 0x20_0000_0000_0000 * 0x100_0000_0000_0000) by (nonlinear_arith)
                requires
                    s1 < 0x20_0000_0000_0000,
                    f < 0x100_0000_0000_0000,
            ;
            lemma_pow2_pos(k2 as nat);
            if subtract {
                assert(s1 * f >= s2) by (nonlinear_arith)
                    requires
                        s1 * f * w >= s2 * w,
                        w > 0,
                ;
                assert((s1 * f - s2) * w == s1 * f * w - s2 * w) by (nonlinear_arith);
            } else {
                assert((s1 * f + s2) * w == s1 * f * w + s2 * w) by (nonlinear_arith);
            }
        }
        let a: u128 = if subtract {
            (s1 as u128) * factor - (s2 as u128)
        } else {
            (s1 as u128) * factor + (s2 as u128)
        };
        proof {
            lemma_exact_step(total, k2 as nat, a as nat);
        }
        round(format, a, false, k2, 0, Ghost(total), Ghost(1))
    } else if s2 == 0 {
        proof {
            assert(v2 == 0);
            lemma_exact_step(total, k1 as nat, s1 as nat);
        }
        round(format, s1 as u128, false, k1, 0, Ghost(total), Ghost(1))
    } else {
        // The smaller one only tells the sum from a multiple of an eighth of
        // the larger one's last place.
        let e: u32 = k1 - 3;
        let ghost w = pow2(e as nat);
        proof {
            lemma_pow2_pos(e as nat);
            lemma_pow2_adds(e as nat, 3);
            assert(v1 == (s1 * 8) * w) by (nonlinear_arith)
                requires
                    v1 == s1 * pow2(k1 as nat),
                    pow2(k1 as nat) == w * pow2(3),
                    pow2(3) == 8,
            ;
            // v2 < 2^precision * 2^k2 <= 2^e
            lemma_pow2_adds(k2 as nat, format.precision as nat);
            if k2 + format.precision < e {
                lemma_pow2_strictly_increases((k2 + format.precision) as nat, e as nat);
            }
            let u = pow2(k2 as nat);
            lemma_pow2_pos(k2 as nat);
            assert(0 < v2 < u * pow2(format.precision as nat)) by (nonlinear_arith)
                requires
                    v2 == s2 * u,
                    0 < s2 < pow2(format.precision as nat),
                    u > 0,
            ;
            assert(v2 < w);
        }
        let a: u128 = if subtract {
            (s1 as u128) * 8 - 1
        } else {
            (s1 as u128) * 8
        };
        proof {
            assert(1 * w == w);
            if subtract {
                assert(w * a == (s1 * 8) * w - w && w * (a + 1) == (s1 * 8) * w)
                    by (nonlinear_arith)
                    requires
                        a == s1 * 8 - 1,
                ;
            } else {
                assert(w * a == (s1 * 8) * w && w * (a + 1) == (s1 * 8) * w + w)
                    by (nonlinear_arith)
                    requires
                        a == s1 * 8,
                ;
            }
        }
        round(format, a, true, e, 0, Ghost(total), Ghost(1))
    }
}

/// The pattern of an undefined result.
fn undefined(format: &Format) -> (r: Signed)
    requires
        format.known(),
    ensures
        r == nan(*format),
{
    Signed { negative: false, magnitude: format.infinity + format.hidden / 2 }
}

pub(crate) fn compute_sum(format: &Format, a: Signed, b: Signed) -> (r: Signed)
    requires
        format.known(),
    ensures
        r == sum(*format, a, b),
{
    if a.magnitude > format.infinity || b.magnitude > format.infinity {
        return undefined(format);
    }
    if a.magnitude == format.infinity {
        if b.magnitude == format.infinity && a.negative != b.negative {
            return undefined(format);
        }
        return a;
    }
    if b.magnitude == format.infinity {
        return b;
    }
    proof {
        lemma_split(*format, a.magnitude as nat);
        lemma_split(*format, b.magnitude as nat);
        if a.magnitude < b.magnitude {
            lemma_value_grows(*format, a.magnitude as nat, b.magnitude as nat);
        } else if b.magnitude < a.magnitude {
            lemma_value_grows(*format, b.magnitude as nat, a.magnitude as nat);
        }
    }
    let subtract = a.negative != b.negative;
    if a.magnitude >= b.magnitude {
        let magnitude = combine(format, a.magnitude, b.magnitude, subtract);
        let cancels = subtract && a.magnitude == b.magnitude;
        Signed {
            negative: (a.negative && a.magnitude > 0 && !cancels) || (a.negative && b.negative),
            magnitude,
        }
    } else {
        let magnitude = combine(format, b.magnitude, a.magnitude, subtract);
        Signed { negative: b.negative, magnitude }
    }
}

pub(crate) fn compute_product(format: &Format, a: Signed, b: Signed) -> (r: Signed)
    requires
        format.known(),
    ensures
        r == product(*format, a, b),
{
    if a.magnitude > format.infinity || b.magnitude > format.infinity {
        return undefined(format);
    }
    let negative = a.negative != b.negative;
    if a.magnitude == format.infinity || b.magnitude == format.infinity {
        if a.magnitude == 0 || b.magnitude == 0 {
            return undefined(format);
        }
        return Signed { negative, magnitude: format.infinity };
    }
    let (s1, k1) = split(format, a.magnitude);
    let (s2, k2) = split(format, b.magnitude);
    let ghost num = value_of(*format, a.magnitude as nat) * value_of(*format, b.magnitude as nat);
    proof {
        let (w1, w2) = (pow2(k1 as nat), pow2(k2 as nat));
        lemma_pow2_adds(k1 as nat, k2 as nat);
        assert(s1 * s2 <= 0x20_0000_0000_0000 * 0x20_0000_0000_0000) by (nonlinear_arith)
            requires
                s1 <= 0x20_0000_0000_0000,
                s2 <= 0x20_0000_0000_0000,
        ;
        assert((s1 * w1) * (s2 * w2) == (s1 * s2) * (w1 * w2)) by (nonlinear_arith);
        lemma_exact_step(num, (k1 + k2) as nat, (s1 * s2) as nat);
        assert(1 * pow2(format.unit as nat) == pow2(format.unit as nat));
    }
    let magnitude = round(
        format,
        (s1 as u128) * (s2 as u128),
        false,
        k1 + k2,
        format.unit,
        Ghost(num),
        Ghost(1),
    );
    Signed { negative, magnitude }
}

/// The magnitude of the quotient of two finite magnitudes.
fn divide(format: &Format, a: u64, b: u64) -> (m: u64)
    requires
        format.known(),
        a < format.infinity,
        0 < b < format.infinity,
    ensures
        m == nearest(
            *format,
            value_of(*format, a as nat) * pow2(format.unit as nat),
            value_of(*format, b as nat),
        ),
        m <= format.infinity,
{
    let (s1, k1) = split(format, a);
    let (s2, k2) = split(format, b);
    let p = format.precision;
    let ghost unit = format.unit as nat;
    let ghost v1 = value_of(*format, a as nat);
    let ghost v2 = value_of(*format, b as nat);
    let length = bit_length(s1 as u128);
    proof {
        lemma_format_powers(*format);
        lemma_split(*format, b as nat);
        lemma_split(*format, a as nat);
        if length > p {
            lemma_pow2_strictly_increases(p as nat, length as nat);
            if length - 1 > p {
                lemma_pow2_strictly_increases(p as nat, (length - 1) as nat);
            }
            assert(false);
        }
    }
    let t: u32 = 2 * p + 4 - length;
    let factor = if length > 0 { power_of_two(t) } else { 1 };
    let ghost f = factor as nat;
    proof {
        assert(length == 0 ==> s1 == 0) by {
            lemma2_to64();
        }
        if length > 0 {
            lemma_pow2_adds(t as nat, length as nat);
            lemma_pow2_adds(t as nat, (length - 1) as nat);
            lemma_pow2_pos(t as nat);
            lemma_pow2_adds(p as nat, (p + 4) as nat);
            lemma_pow2_adds(p as nat, (p + 3) as nat);
            lemma_pow2_strictly_increases((2 * p + 4) as nat, 127);
            lemma_pow2_adds(63, 64);
            lemma2_to64();
            lemma2_to64_rest();
            assert(s1 * f < pow2((2 * p + 4) as nat)) by (nonlinear_arith)
                requires
                    s1 < pow2(length as nat),
                    f == pow2(t as nat),
                    f > 0,
                    pow2((2 * p + 4) as nat) == pow2(t as nat) * pow2(length as nat),
            ;
            assert(s1 * f >= pow2((2 * p + 3) as nat)) by (nonlinear_arith)
                requires
                    s1 >= pow2((length - 1) as nat),
                    f == pow2(t as nat),
                    pow2((2 * p + 3) as nat) == pow2(t as nat) * pow2((length - 1) as nat),
            ;
        } else {
            assert(s1 * f == 0) by (nonlinear_arith)
                requires
                    s1 == 0,
            ;
        }
    }
    let dividend: u128 = (s1 as u128) * factor;
    let q: u128 = dividend / (s2 as u128);
    let rest: u128 = dividend % (s2 as u128);
    let places: u32 = if length > 0 { t } else { 0 };
    let ghost num = dividend as nat * pow2((k1 + format.unit) as nat);
    proof {
        lemma2_to64();
        assert(f == pow2(places as nat));
        let w = pow2((k1 + format.unit) as nat);
        lemma_pow2_pos((k1 + format.unit) as nat);
        lemma_fundamental_div_mod(dividend as int, s2 as int);
        let d = s2 as nat;
        assert((d * w) * q <= num && num < (d * w) * (q + 1) && (num == (d * w) * q) == (rest
            == 0)) by (nonlinear_arith)
            requires
                dividend == d * q + rest,
                rest < d,
                num == dividend * w,
                w > 0,
        ;
        assert(d * w > 0) by (nonlinear_arith)
            requires
                d > 0,
                w > 0,
        ;
        if rest != 0 {
            // The quotient has more bits than a significand.
            lemma_pow2_adds(p as nat, (p + 3) as nat);
            lemma_pow2_unfold((p + 1) as nat);
            lemma_pow2_strictly_increases((p + 1) as nat, (p + 3) as nat);
            assert(length > 0) by {
                if length == 0 {
                    assert(dividend == 0);
                    lemma_small_mod(0, s2 as nat);
                }
            }
            let big = pow2((p + 3) as nat);
            assert(dividend < d * (q + 1)) by (nonlinear_arith)
                requires
                    dividend == d * q + rest,
                    rest < d,
            ;
            assert(q >= big) by (nonlinear_arith)
                requires
                    dividend >= pow2(p as nat) * big,
                    dividend < d * (q + 1),
                    d <= pow2(p as nat),
            ;
        }
        // The same fraction, expanded.
        lemma_pow2_pos(places as nat);
        lemma_nearest_expanded(*format, v1 * pow2(unit), v2, f);
        lemma_pow2_adds(k1 as nat, unit);
        lemma_pow2_adds(k2 as nat, places as nat);
        let (w1, w2, u) = (pow2(k1 as nat), pow2(k2 as nat), pow2(unit));
        assert((v1 * u) * f == num) by (nonlinear_arith)
            requires
                v1 == s1 * w1,
                num == (s1 * f) * (w1 * u),
        ;
        assert(v2 * f == d * (w2 * f)) by (nonlinear_arith)
            requires
                v2 == d * w2,
        ;
    }
    round(
        format,
        q,
        rest != 0,
        k1 + format.unit,
        k2 + places,
        Ghost(num),
        Ghost(s2 as nat),
    )
}

pub(crate) fn compute_quotient(format: &Format, a: Signed, b: Signed) -> (r: Signed)
    requires
        format.known(),
    ensures
        r == quotient(*format, a, b),
{
    if a.magnitude > format.infinity || b.magnitude > format.infinity {
        return undefined(format);
    }
    let negative = a.negative != b.negative;
    if a.magnitude == format.infinity {
        if b.magnitude == format.infinity {
            return undefined(format);
        }
        return Signed { negative, magnitude: format.infinity };
    }
    if b.magnitude == format.infinity {
        return Signed { negative, magnitude: 0 };
    }
    if b.magnitude == 0 {
        if a.magnitude == 0 {
            return undefined(format);
        }
        return Signed { negative, magnitude: format.infinity };
    }
    Signed { negative, magnitude: divide(format, a.magnitude, b.magnitude) }
}

pub(crate) fn test_exceeds(format: &Format, a: Signed, b: Signed) -> (r: bool)
    ensures
        r == exceeds(*format, a, b),
{
    if a.magnitude > format.infinity || b.magnitude > format.infinity {
        false
    } else if a.negative {
        b.negative && a.magnitude < b.magnitude
    } else if b.negative {
        a.magnitude > 0 || b.magnitude > 0
    } else {
        a.magnitude > b.magnitude
    }
}

pub(crate) fn test_equals(format: &Format, a: Signed, b: Signed) -> (r: bool)
    ensures
        r == equals(*format, a, b),
{
    if a.magnitude > format.infinity || b.magnitude > format.infinity {
        false
    } else {
        a.magnitude == b.magnitude && (a.negative == b.negative || a.magnitude == 0)
    }
}

pub(crate) fn compute_dyadic(format: &Format, n: u64, places: u32) -> (r: Signed)
    requires
        format.known(),
        places <= format.unit,
    ensures
        r == dyadic(*format, n as nat, places as nat),
{
    let e: u32 = format.unit - places;
    let ghost num = n as nat * pow2(e as nat);
    proof {
        lemma_exact_step(num, e as nat, n as nat);
        lemma2_to64();
        assert(1 * pow2(0) == 1);
    }
    let magnitude = round(format, n as u128, false, e, 0, Ghost(num), Ghost(1));
    Signed { negative: false, magnitude }
}

pub(crate) fn convert(from: &Format, to: &Format, a: Signed) -> (r: Signed)
    requires
        from.known(),
        to.known(),
    ensures
        r == converted(*from, *to, a),
{
    if a.magnitude > from.infinity {
        return undefined(to);
    }
    if a.magnitude == from.infinity {
        return Signed { negative: a.negative, magnitude: to.infinity };
    }
    let (s, k) = split(from, a.magnitude);
    let ghost num = value_of(*from, a.magnitude as nat) * pow2(to.unit as nat);
    proof {
        lemma_pow2_adds(k as nat, to.unit as nat);
        let (w, u) = (pow2(k as nat), pow2(to.unit as nat));
        assert((s * w) * u == s * (w * u)) by (nonlinear_arith);
        lemma_exact_step(num, (k + to.unit) as nat, s as nat);
        assert(1 * pow2(from.unit as nat) == pow2(from.unit as nat));
    }
    let magnitude = round(to, s as u128, false, k + to.unit, from.unit, Ghost(num), Ghost(1));
    Signed { negative: a.negative, magnitude }
}

/// Rounds to a whole number.
pub(crate) fn compute_whole(format: &Format, a: Signed) -> (r: u64)
    requires
        format.known(),
    ensures
        r == whole(*format, a),
{
    if a.magnitude > format.infinity || a.negative {
        return 0;
    }
    if a.magnitude == format.infinity {
        return u64::MAX;
    }
    let (s, k) = split(format, a.magnitude);
    let ghost v = value_of(*format, a.magnitude as nat);
    let ghost one = pow2(format.unit as nat);
    proof {
        lemma_pow2_pos(k as nat);
        lemma_pow2_pos(format.unit as nat);
        lemma_split(*format, a.magnitude as nat);
    }
    if k >= format.unit {
        let n: u32 = k - format.unit;
        proof {
            lemma_pow2_pos(n as nat);
            lemma_pow2_adds(format.unit as nat, n as nat);
            let c = pow2(n as nat);
            assert(2 * v + one == (2 * one) * (s * c) + one) by (nonlinear_arith)
                requires
                    v == s * pow2(k as nat),
                    pow2(k as nat) == one * c,
            ;
            lemma_fundamental_div_mod_converse(
                (2 * v + one) as int,
                (2 * one) as int,
                (s * c) as int,
                one as int,
            );
        }
        if s == 0 {
            proof {
                assert(s * pow2(n as nat) == 0) by (nonlinear_arith)
                    requires
                        s == 0,
                ;
            }
            return 0;
        }
        if n >= 64 {
            proof {
                lemma2_to64();
                if n > 64 {
                    lemma_pow2_strictly_increases(64, n as nat);
                }
                let c = pow2(n as nat);
                assert(s * c >= c) by (nonlinear_arith)
                    requires
                        s >= 1,
                ;
            }
            return u64::MAX;
        }
        let factor = power_of_two(n);
        proof {
            lemma2_to64();
            lemma_pow2_strictly_increases(n as nat, 64);
            assert(s * factor <= 0x20_0000_0000_0000 * 0x1_0000_0000_0000_0000)
                by (nonlinear_arith)
                requires
                    s <= 0x20_0000_0000_0000,
                    factor <= 0x1_0000_0000_0000_0000,
            ;
        }
        let n: u128 = (s as u128) * factor;
        if n > u64::MAX as u128 {
            u64::MAX
        } else {
            n as u64
        }
    } else {
        let n: u32 = format.unit - k;
        let ghost c = pow2(n as nat);
        let ghost w = pow2(k as nat);
        proof {
            // Both sides of the division are multiples of 2^k.
            lemma_pow2_adds(k as nat, n as nat);
            lemma_pow2_pos(n as nat);
            assert(2 * v + one == w * (2 * s + c)) by (nonlinear_arith)
                requires
                    v == s * w,
                    one == w * c,
            ;
            assert(2 * one == w * (2 * c)) by (nonlinear_arith)
                requires
                    one == w * c,
            ;
            lemma_div_multiples_vanish_quotient(w as int, (2 * s + c) as int, (2 * c) as int);
        }
        if n >= 64 {
            proof {
                lemma2_to64();
                if n > 64 {
                    lemma_pow2_strictly_increases(64, n as nat);
                }
                lemma_basic_div((2 * s + c) as int, (2 * c) as int);
            }
            0
        } else {
            let factor = power_of_two(n);
            proof {
                lemma2_to64();
                lemma_pow2_strictly_increases(n as nat, 64);
                let x = (2 * s + c) as nat;
                assert(x / (2 * c) <= u64::MAX) by {
                    lemma_div_is_ordered_by_denominator(x as int, 1, (2 * c) as int);
                    lemma_div_basics(x as int);
                    assert(x / (2 * c) <= s + 1) by (nonlinear_arith)
                        requires
                            x == 2 * s + c,
                            c >= 1,
                    ;
                }
            }
            ((2 * (s as u128) + factor) / (2 * factor)) as u64
        }
    }
}

} // verus!
