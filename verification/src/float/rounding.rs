//! Rounding to nearest, ties to even.

use super::format::{lemma_format_powers, value_of, Format};
use vstd::arithmetic::div_mod::*;
use vstd::arithmetic::mul::*;
use vstd::arithmetic::power2::*;
use vstd::prelude::*;

verus! {

/// How often `den` must be doubled before `num / den` is below two to the
/// power of `precision`.
pub open spec fn shift_for(num: nat, den: nat, precision: nat) -> nat
    decreases (if num >= den { num - den } else { 0 }),
{
    if den == 0 || precision == 0 || num < den * pow2(precision) {
        0
    } else {
        proof {
            lemma_pow2_unfold(precision);
            lemma_pow2_pos((precision - 1) as nat);
            let w = pow2((precision - 1) as nat);
            assert(den * (2 * w) >= 2 * den) by (nonlinear_arith)
                requires
                    w >= 1,
            ;
        }
        1 + shift_for(num, 2 * den, precision)
    }
}

/// Whether the remainder `r` of a division by `unit` with quotient `q` rounds up.
pub open spec fn rounds_up(q: nat, r: nat, unit: nat) -> bool {
    2 * r > unit || (2 * r == unit && q % 2 == 1)
}

/// The magnitude nearest to `num / den` units of the format's least positive
/// value. Of two equally near, the even one; too large a value is infinite.
pub open spec fn nearest(format: Format, num: nat, den: nat) -> nat {
    let shift = shift_for(num, den, format.precision as nat);
    let unit = den * pow2(shift);
    let q = num / unit;
    let up: nat = if rounds_up(q, num % unit, unit) {
        1
    } else {
        0
    };
    let m = shift * format.hidden as nat + q + up;
    if m < format.infinity {
        m
    } else {
        format.infinity as nat
    }
}

/// The shift is pinned by the two bounds that it is the least to meet.
proof fn lemma_shift_value(num: nat, den: nat, precision: nat, shift: nat)
    requires
        den > 0,
        precision > 0,
        num < den * pow2(precision + shift),
        shift > 0 ==> num >= den * pow2((precision + shift - 1) as nat),
    ensures
        shift_for(num, den, precision) == shift,
    decreases shift,
{
    if shift > 0 {
        lemma_pow2_unfold(precision + shift);
        let w = pow2((precision + shift - 1) as nat);
        assert(den * (2 * w) == (2 * den) * w) by (nonlinear_arith);
        if shift > 1 {
            lemma_pow2_unfold((precision + shift - 1) as nat);
            let v = pow2((precision + shift - 2) as nat);
            assert(den * (2 * v) == (2 * den) * v) by (nonlinear_arith);
        }
        lemma_shift_value(num, 2 * den, precision, (shift - 1) as nat);
        if shift > 1 {
            lemma_pow2_strictly_increases(precision, (precision + shift - 1) as nat);
        }
        assert(den * w >= den * pow2(precision)) by (nonlinear_arith)
            requires
                w >= pow2(precision),
        ;
    }
}

/// The shift satisfies the bounds.
proof fn lemma_shift_bounds(num: nat, den: nat, precision: nat)
    requires
        den > 0,
        precision > 0,
    ensures
        num < den * pow2(precision + shift_for(num, den, precision)),
        shift_for(num, den, precision) > 0 ==> num >= den * pow2(
            (precision + shift_for(num, den, precision) - 1) as nat,
        ),
    decreases (if num >= den { num - den } else { 0 }),
{
    if num >= den * pow2(precision) {
        lemma_pow2_unfold(precision);
        lemma_pow2_pos((precision - 1) as nat);
        let w = pow2((precision - 1) as nat);
        assert(den * (2 * w) >= 2 * den) by (nonlinear_arith)
            requires
                w >= 1,
        ;
        lemma_shift_bounds(num, 2 * den, precision);
        let s = shift_for(num, 2 * den, precision);
        lemma_pow2_unfold(precision + s + 1);
        let v = pow2(precision + s);
        assert(den * (2 * v) == (2 * den) * v) by (nonlinear_arith);
        if s > 0 {
            lemma_pow2_unfold(precision + s);
            let u = pow2((precision + s - 1) as nat);
            assert(den * (2 * u) == (2 * den) * u) by (nonlinear_arith);
        }
    }
}

/// A fraction may be expanded before it is rounded.
pub proof fn lemma_nearest_expanded(format: Format, num: nat, den: nat, factor: nat)
    requires
        format.known(),
        den > 0,
        factor > 0,
    ensures
        nearest(format, num * factor, den * factor) == nearest(format, num, den),
{
    let p = format.precision as nat;
    let s = shift_for(num, den, p);
    lemma_shift_bounds(num, den, p);
    let w = pow2(p + s);
    assert(num * factor < (den * factor) * w) by (nonlinear_arith)
        requires
            num < den * w,
            factor > 0,
    ;
    if s > 0 {
        let v = pow2((p + s - 1) as nat);
        assert(num * factor >= (den * factor) * v) by (nonlinear_arith)
            requires
                num >= den * v,
                factor > 0,
        ;
    }
    assert(den * factor > 0) by (nonlinear_arith)
        requires
            den > 0,
            factor > 0,
    ;
    lemma_shift_value(num * factor, den * factor, p, s);
    lemma_pow2_pos(s);
    let unit = den * pow2(s);
    assert(unit > 0) by (nonlinear_arith)
        requires
            den > 0,
            pow2(s) > 0,
            unit == den * pow2(s),
    ;
    assert((den * factor) * pow2(s) == factor * unit) by (nonlinear_arith)
        requires
            unit == den * pow2(s),
    ;
    assert(num * factor == factor * num) by (nonlinear_arith);
    lemma_div_multiples_vanish_quotient(factor as int, num as int, unit as int);
    lemma_truncate_middle(num as int, factor as int, unit as int);
    let r = num % unit;
    assert((factor * num) % (factor * unit) == factor * r);
    assert((2 * (factor * r) > factor * unit) == (2 * r > unit)) by (nonlinear_arith)
        requires
            factor > 0,
    ;
    assert((2 * (factor * r) == factor * unit) == (2 * r == unit)) by (nonlinear_arith)
        requires
            factor > 0,
    ;
}

/// A one shifted left is a power of two.
proof fn lemma_one_shifted(n: u128)
    requires
        n < 128,
    ensures
        (1u128 << n) == pow2(n as nat),
    decreases n,
{
    if n == 0 {
        assert(1u128 << 0u128 == 1u128) by (bit_vector);
        lemma2_to64();
    } else {
        lemma_one_shifted((n - 1) as u128);
        lemma_pow2_unfold(n as nat);
        let k = (n - 1) as u128;
        assert(n == k + 1);
        assert((1u128 << n) == 2 * (1u128 << k)) by (bit_vector)
            requires
                n == k + 1,
                n < 128,
        ;
    }
}

/// Two to the power of `n`.
pub(crate) fn power_of_two(n: u32) -> (r: u128)
    requires
        n < 128,
    ensures
        r == pow2(n as nat),
{
    proof {
        lemma_one_shifted(n as u128);
    }
    1u128 << (n as u128)
}

/// `a` divided by two to the power of `n`.
fn halved(a: u128, n: u32) -> (r: u128)
    requires
        n < 128,
    ensures
        r == a as nat / pow2(n as nat),
{
    proof {
        vstd::bits::lemma_u128_shr_is_div(a, n as u128);
    }
    a >> (n as u128)
}

/// The number of bits that `a` takes.
pub(crate) fn bit_length(a: u128) -> (r: u32)
    ensures
        r <= 128,
        a < pow2(r as nat),
        a > 0 ==> r > 0 && a >= pow2((r - 1) as nat),
        a == 0 ==> r == 0,
{
    let mut x: u128 = a;
    let mut n: u32 = 0;
    let mut step: u32 = 64;
    proof {
        lemma2_to64();
        lemma_pow2_adds(64, 64);
        lemma_div_basics_2(a as int);
        assert(pow2(0) == 1);
    }
    while step > 0
        invariant
            x == a as nat / pow2(n as nat),
            n + 2 * step <= 128,
            n > 0 ==> x > 0,
            a == 0 ==> x == 0,
            step > 0 ==> x < pow2(2 * step as nat),
            step == 0 ==> x < 2,
            step == 0 || step == 1 || step == 2 || step == 4 || step == 8 || step == 16 || step
                == 32 || step == 64,
        decreases step,
    {
        let y = halved(x, step);
        proof {
            lemma_pow2_pos(step as nat);
            lemma_pow2_pos(n as nat);
            lemma_pow2_adds(step as nat, step as nat);
            lemma_pow2_adds(n as nat, step as nat);
            lemma_div_denominator(a as int, pow2(n as nat) as int, pow2(step as nat) as int);
            lemma2_to64();
            let w = pow2(step as nat);
            assert(x as nat / w < w) by (nonlinear_arith)
                requires
                    x < w * w,
                    w > 0,
            ;
            assert(y == 0 ==> x < w) by (nonlinear_arith)
                requires
                    y == x as nat / w,
                    w > 0,
            ;
        }
        if y != 0 {
            x = y;
            n = n + step;
        }
        step = step / 2;
    }
    proof {
        let w = pow2(n as nat);
        lemma_pow2_pos(n as nat);
        lemma_pow2_unfold((n + 1) as nat);
        assert(x as nat * w <= a < (x + 1) * w) by (nonlinear_arith)
            requires
                x == a as nat / w,
                w > 0,
        ;
        assert(1 * w == w);
        assert(0 * w == 0);
    }
    if x == 0 {
        n
    } else {
        n + 1
    }
}

/// What rounding needs of a value: `num` lies in the `a`-th step of width
/// `width`, and `sticky` says whether it lies above the step's lower end.
pub open spec fn in_step(num: nat, width: nat, a: nat, sticky: bool) -> bool {
    &&& width > 0
    &&& width * a <= num < width * (a + 1)
    &&& sticky == (num != width * a)
}

/// Rounding a value that is known to within one step.
proof fn lemma_round_step(num: nat, width: nat, a: nat, sticky: bool, n: nat)
    requires
        in_step(num, width, a, sticky),
        n > 0,
    ensures
        ({
            let unit = width * pow2(n);
            let q = a / pow2(n);
            let rem = a % pow2(n);
            let half = pow2((n - 1) as nat);
            &&& num / unit == q
            &&& rounds_up(num / unit, num % unit, unit) == (rem > half || (rem == half && (sticky
                || q % 2 == 1)))
        }),
{
    let w = pow2(n);
    lemma_pow2_pos(n);
    lemma_pow2_unfold(n);
    let half = pow2((n - 1) as nat);
    let unit = width * w;
    let q = a / w;
    let rem = a % w;
    lemma_fundamental_div_mod(a as int, w as int);
    let delta = (num - width * a) as nat;
    let r = width * rem + delta;
    assert(delta < width) by (nonlinear_arith)
        requires
            num < width * (a + 1),
            delta == num - width * a,
    ;
    assert(num == unit * q + r) by (nonlinear_arith)
        requires
            num == width * a + delta,
            a == w * q + rem,
            unit == width * w,
            r == width * rem + delta,
    ;
    assert(r < unit) by (nonlinear_arith)
        requires
            rem + 1 <= w,
            delta < width,
            unit == width * w,
            r == width * rem + delta,
    ;
    lemma_fundamental_div_mod_converse(num as int, unit as int, q as int, r as int);
    if rem > half {
        assert(2 * r > unit) by (nonlinear_arith)
            requires
                rem >= half + 1,
                w == 2 * half,
                unit == width * w,
                r == width * rem + delta,
                width > 0,
        ;
    } else if rem == half {
        assert(2 * r == unit + 2 * delta) by (nonlinear_arith)
            requires
                rem == half,
                w == 2 * half,
                unit == width * w,
                r == width * rem + delta,
        ;
    } else {
        assert(2 * r < unit) by (nonlinear_arith)
            requires
                rem + 1 <= half,
                w == 2 * half,
                unit == width * w,
                r == width * rem + delta,
                delta < width,
        ;
    }
}

/// The shift of a value that is known to within one step, from the number of
/// bits of the step's index.
proof fn lemma_step_shift(
    num: nat,
    d: nat,
    a: nat,
    sticky: bool,
    e: nat,
    b: nat,
    precision: nat,
    length: nat,
    shift: nat,
)
    requires
        d > 0,
        precision > 0,
        length > 0,
        in_step(num, d * pow2(e), a, sticky),
        pow2((length - 1) as nat) <= a < pow2(length),
        shift == (if e + length > b + precision { e + length - b - precision } else { 0 }) as nat,
    ensures
        shift_for(num, d * pow2(b), precision) == shift,
{
    let width = d * pow2(e);
    lemma_pow2_adds(e, length);
    lemma_pow2_pos(b);
    // The value is below d * 2^(e + length).
    assert(num < d * (pow2(e) * pow2(length))) by (nonlinear_arith)
        requires
            num < width * (a + 1),
            width == d * pow2(e),
            a + 1 <= pow2(length),
            width > 0,
    ;
    lemma_pow2_adds(b, precision + shift);
    if b + precision + shift > e + length {
        lemma_pow2_strictly_increases(e + length, b + precision + shift);
    }
    assert((d * pow2(b)) * pow2(precision + shift) == d * (pow2(b) * pow2(precision + shift)))
        by (nonlinear_arith);
    assert(d * pow2(e + length) <= d * pow2(b + precision + shift)) by (nonlinear_arith)
        requires
            pow2(e + length) <= pow2(b + precision + shift),
    ;
    if shift > 0 {
        lemma_pow2_adds(b, (precision + shift - 1) as nat);
        lemma_pow2_adds(e, (length - 1) as nat);
        assert((d * pow2(b)) * pow2((precision + shift - 1) as nat) == d * (pow2(b) * pow2(
            (precision + shift - 1) as nat,
        ))) by (nonlinear_arith);
        assert(d * (pow2(e) * pow2((length - 1) as nat)) <= num) by (nonlinear_arith)
            requires
                width * a <= num,
                width == d * pow2(e),
                pow2((length - 1) as nat) <= a,
        ;
    }
    assert(d * pow2(b) > 0) by (nonlinear_arith)
        requires
            d > 0,
            pow2(b) > 0,
    ;
    lemma_shift_value(num, d * pow2(b), precision, shift);
}

/// Rounds the value `num / (d * 2^b)`, where `num` lies in the `a`-th step of
/// width `d * 2^e`.
pub(crate) fn round(
    format: &Format,
    a: u128,
    sticky: bool,
    e: u32,
    b: u32,
    Ghost(num): Ghost<nat>,
    Ghost(d): Ghost<nat>,
) -> (m: u64)
    requires
        format.known(),
        d > 0,
        e <= 5000,
        b <= 5000,
        in_step(num, d * pow2(e as nat), a as nat, sticky),
        sticky ==> a >= 4 * format.hidden,
    ensures
        m == nearest(*format, num, d * pow2(b as nat)),
        m <= format.infinity,
{
    let ghost den = d * pow2(b as nat);
    proof {
        lemma_format_powers(*format);
        lemma_pow2_pos(b as nat);
        lemma_pow2_pos(e as nat);
        assert(den > 0) by (nonlinear_arith)
            requires
                den == d * pow2(b as nat),
                d > 0,
                pow2(b as nat) > 0,
        ;
    }
    let p = format.precision;
    if a == 0 {
        proof {
            assert(num == 0) by (nonlinear_arith)
                requires
                    num == (d * pow2(e as nat)) * a,
                    a == 0,
            ;
            let w = pow2(p as nat);
            assert(0 < den * w) by (nonlinear_arith)
                requires
                    den > 0,
                    w > 0,
            ;
            lemma_pow2_pos(0);
            assert(pow2(0) == 1) by {
                lemma2_to64();
            }
            assert(den * pow2(0) == den) by (nonlinear_arith)
                requires
                    pow2(0) == 1,
            ;
            lemma_div_basics_1(den as int);
            lemma_small_mod(0, den);
        }
        return 0;
    }
    let length = bit_length(a);
    let shift: u32 = if e + length > b + p {
        e + length - b - p
    } else {
        0
    };
    proof {
        lemma_step_shift(
            num,
            d,
            a as nat,
            sticky,
            e as nat,
            b as nat,
            p as nat,
            length as nat,
            shift as nat,
        );
        lemma_pow2_adds(b as nat, shift as nat);
        assert(den * pow2(shift as nat) == d * pow2((b + shift) as nat)) by (nonlinear_arith)
            requires
                den == d * pow2(b as nat),
                pow2((b + shift) as nat) == pow2(b as nat) * pow2(shift as nat),
        ;
    }
    let ghost unit = den * pow2(shift as nat);
    proof {
        lemma_pow2_pos(shift as nat);
        assert(unit > 0) by (nonlinear_arith)
            requires
                unit == den * pow2(shift as nat),
                den > 0,
                pow2(shift as nat) > 0,
        ;
    }
    let mut q: u128 = 0;
    let mut up: u64 = 0;
    if b + shift <= e {
        let n: u32 = e - b - shift;
        proof {
            // The step is a whole number of units.
            lemma_pow2_adds((b + shift) as nat, n as nat);
            assert(length + n <= p);
            lemma_pow2_adds(length as nat, n as nat);
            let c = pow2(n as nat);
            lemma_pow2_pos(n as nat);
            if length + n < p {
                lemma_pow2_strictly_increases((length + n) as nat, p as nat);
            }
            assert(a * c < pow2(p as nat)) by (nonlinear_arith)
                requires
                    a < pow2(length as nat),
                    c > 0,
                    pow2((length + n) as nat) == pow2(length as nat) * c,
                    pow2((length + n) as nat) <= pow2(p as nat),
            ;
            if sticky {
                lemma_pow2_unfold((p + 1) as nat);
                lemma_pow2_strictly_increases(length as nat, (p + 1) as nat);
                assert(false);
            }
            let v = a * c;
            assert(num == unit * v + 0) by (nonlinear_arith)
                requires
                    num == (d * pow2(e as nat)) * a,
                    unit == d * pow2((b + shift) as nat),
                    pow2(e as nat) == pow2((b + shift) as nat) * c,
                    v == a * c,
            ;
            lemma_fundamental_div_mod_converse(num as int, unit as int, v as int, 0);
        }
        q = a * power_of_two(n);
    } else {
        let n: u32 = b + shift - e;
        let ghost width = d * pow2(e as nat);
        proof {
            lemma_pow2_adds(e as nat, n as nat);
            assert(unit == width * pow2(n as nat)) by (nonlinear_arith)
                requires
                    unit == d * pow2((b + shift) as nat),
                    pow2((b + shift) as nat) == pow2(e as nat) * pow2(n as nat),
                    width == d * pow2(e as nat),
            ;
            lemma_round_step(num, width, a as nat, sticky, n as nat);
            lemma_pow2_pos(n as nat);
            lemma_fundamental_div_mod(a as int, pow2(n as nat) as int);
            lemma_pow2_unfold(n as nat);
        }
        if n < 128 {
            q = halved(a, n);
            let lower = power_of_two(n);
            proof {
                assert(q * lower <= a) by (nonlinear_arith)
                    requires
                        a == lower * q + a as nat % lower as nat,
                ;
                assert(q * lower == lower * q) by (nonlinear_arith);
            }
            let rem: u128 = a - q * lower;
            let half = power_of_two(n - 1);
            if rem > half || (rem == half && (sticky || q % 2 == 1)) {
                up = 1;
            }
        } else {
            proof {
                if n > 128 {
                    lemma_pow2_strictly_increases(128, n as nat);
                }
                if length < 128 {
                    lemma_pow2_strictly_increases(length as nat, 128);
                }
                assert(a < pow2(n as nat));
                lemma_div_basics_2(a as int);
                lemma_small_mod(a as nat, pow2(n as nat));
                assert(a as nat / pow2(n as nat) == 0) by {
                    lemma_basic_div(a as int, pow2(n as nat) as int);
                }
            }
            if n == 128 {
                let half = power_of_two(127);
                if a > half || (a == half && sticky) {
                    up = 1;
                }
            } else {
                proof {
                    if n > 129 {
                        lemma_pow2_strictly_increases(128, (n - 1) as nat);
                    }
                    assert(a < pow2((n - 1) as nat));
                }
            }
        }
        proof {
            // The quotient is a significand.
            lemma_pow2_adds(n as nat, p as nat);
            assert(length <= n + p);
            if length < n + p {
                lemma_pow2_strictly_increases(length as nat, (n + p) as nat);
            }
            assert(q < pow2(p as nat)) by (nonlinear_arith)
                requires
                    q == a as nat / pow2(n as nat),
                    a < pow2(n as nat) * pow2(p as nat),
                    pow2(n as nat) > 0,
            ;
        }
    }
    proof {
        assert(q == num / unit);
        assert(up == (if rounds_up(num / unit, num % unit, unit) {
            1nat
        } else {
            0nat
        }));
        assert(q < 2 * format.hidden);
    }
    if shift >= 2047 {
        proof {
            let h = format.hidden as nat;
            assert(shift * h >= format.infinity) by (nonlinear_arith)
                requires
                    shift >= 2047,
                    format.infinity <= 2047 * h,
            ;
        }
        return format.infinity;
    }
    proof {
        let h = format.hidden as nat;
        assert(shift * h <= 2046 * h) by (nonlinear_arith)
            requires
                shift <= 2046,
        ;
    }
    let m: u64 = (shift as u64) * format.hidden + (q as u64) + up;
    if m < format.infinity {
        m
    } else {
        format.infinity
    }
}

/// What a magnitude is worth that is put together from a shift and a quotient.
proof fn lemma_value_at(format: Format, shift: nat, q: nat)
    requires
        format.known(),
        q <= 2 * format.hidden,
        shift > 0 ==> q >= format.hidden,
    ensures
        value_of(format, shift * format.hidden as nat + q) == q * pow2(shift),
{
    let h = format.hidden as nat;
    let m = shift * h + q;
    if q < h {
        assert(shift * h == 0) by (nonlinear_arith)
            requires
                shift == 0,
        ;
        assert(0 * h == 0);
    } else if q < 2 * h {
        assert(m == (shift + 1) * h + (q - h)) by (nonlinear_arith)
            requires
                m == shift * h + q,
        ;
        assert(m == h * (shift + 1) + (q - h)) by (nonlinear_arith)
            requires
                m == shift * h + q,
        ;
        lemma_fundamental_div_mod_converse(m as int, h as int, shift as int + 1, q - h);
        assert(m >= h) by (nonlinear_arith)
            requires
                m == shift * h + q,
                q >= h,
        ;
    } else {
        assert(m == h * (shift + 2) + 0) by (nonlinear_arith)
            requires
                m == shift * h + q,
                q == 2 * h,
        ;
        lemma_fundamental_div_mod_converse(m as int, h as int, shift as int + 2, 0);
        assert(m >= h) by (nonlinear_arith)
            requires
                m == shift * h + q,
                q == 2 * h,
        ;
        assert(m - (shift + 1) * h == h) by (nonlinear_arith)
            requires
                m == shift * h + q,
                q == 2 * h,
        ;
        lemma_pow2_unfold(shift + 1);
        assert(h * (2 * pow2(shift)) == q * pow2(shift)) by (nonlinear_arith)
            requires
                q == 2 * h,
        ;
    }
}

/// How far `num / den` lies from the value of a magnitude, times `den`.
pub open spec fn error(format: Format, num: nat, den: nat, m: nat) -> nat {
    let v = den * value_of(format, m);
    if v > num {
        (v - num) as nat
    } else {
        (num - v) as nat
    }
}

/// No finite magnitude is closer to a fraction than the one it is rounded to.
pub proof fn nearest_is_closest(format: Format, num: nat, den: nat, other: nat)
    requires
        format.known(),
        den > 0,
        nearest(format, num, den) < format.infinity,
        other < format.infinity,
    ensures
        error(format, num, den, nearest(format, num, den)) <= error(format, num, den, other),
{
    let h = format.hidden as nat;
    let p = format.precision as nat;
    lemma_format_powers(format);
    let s = shift_for(num, den, p);
    lemma_shift_bounds(num, den, p);
    lemma_pow2_pos(s);
    let w = pow2(s);
    let unit = den * w;
    assert(unit > 0) by (nonlinear_arith)
        requires
            den > 0,
            w > 0,
            unit == den * w,
    ;
    let q = num / unit;
    let r = num % unit;
    lemma_fundamental_div_mod(num as int, unit as int);
    lemma_pow2_adds(p, s);
    assert(q < 2 * h) by (nonlinear_arith)
        requires
            num < den * ((2 * h) * w),
            unit == den * w,
            num == unit * q + r,
            unit > 0,
            r >= 0,
    ;
    if s > 0 {
        lemma_pow2_adds((p - 1) as nat, s);
        assert(q >= h) by (nonlinear_arith)
            requires
                num >= den * (h * w),
                unit == den * w,
                num == unit * q + r,
                r < unit,
        ;
    }
    let low = s * h + q;
    lemma_value_at(format, s, q);
    lemma_value_at(format, s, q + 1);
    assert(den * (q * w) == unit * q) by (nonlinear_arith)
        requires
            unit == den * w,
    ;
    assert(den * ((q + 1) * w) == unit * q + unit) by (nonlinear_arith)
        requires
            unit == den * w,
    ;
    let v = value_of(format, other);
    if other < low {
        super::arith::lemma_value_grows(format, other, low);
        assert(den * v <= den * (q * w)) by (nonlinear_arith)
            requires
                v <= q * w,
        ;
    } else if other > low {
        if other > low + 1 {
            super::arith::lemma_value_grows(format, low + 1, other);
        }
        assert(den * v >= den * ((q + 1) * w)) by (nonlinear_arith)
            requires
                v >= (q + 1) * w,
        ;
    }
}

/// The quotient that is rounded has the format's precision.
proof fn lemma_quotient_bounds(format: Format, num: nat, den: nat)
    requires
        format.known(),
        den > 0,
    ensures
        ({
            let s = shift_for(num, den, format.precision as nat);
            let unit = den * pow2(s);
            &&& unit > 0
            &&& num / unit < 2 * format.hidden
            &&& s > 0 ==> num / unit >= format.hidden
        }),
{
    let h = format.hidden as nat;
    let p = format.precision as nat;
    lemma_format_powers(format);
    let s = shift_for(num, den, p);
    lemma_shift_bounds(num, den, p);
    lemma_pow2_pos(s);
    let w = pow2(s);
    let unit = den * w;
    assert(unit > 0) by (nonlinear_arith)
        requires
            den > 0,
            w > 0,
            unit == den * w,
    ;
    let q = num / unit;
    let r = num % unit;
    lemma_fundamental_div_mod(num as int, unit as int);
    lemma_pow2_adds(p, s);
    assert(q < 2 * h) by (nonlinear_arith)
        requires
            num < den * ((2 * h) * w),
            unit == den * w,
            num == unit * q + r,
            unit > 0,
            r >= 0,
    ;
    if s > 0 {
        lemma_pow2_adds((p - 1) as nat, s);
        assert(q >= h) by (nonlinear_arith)
            requires
                num >= den * (h * w),
                unit == den * w,
                num == unit * q + r,
                r < unit,
        ;
    }
}

proof fn lemma_shift_grows(less: nat, more: nat, den: nat, precision: nat)
    requires
        den > 0,
        precision > 0,
        less <= more,
    ensures
        shift_for(less, den, precision) <= shift_for(more, den, precision),
{
    let a = shift_for(less, den, precision);
    let b = shift_for(more, den, precision);
    lemma_shift_bounds(less, den, precision);
    lemma_shift_bounds(more, den, precision);
    if a > b {
        let x = pow2((precision + a - 1) as nat);
        let y = pow2(precision + b);
        if precision + a - 1 > precision + b {
            lemma_pow2_strictly_increases(precision + b, (precision + a - 1) as nat);
        }
        assert(den * x >= den * y) by (nonlinear_arith)
            requires
                x >= y,
        ;
    }
}

/// Rounding keeps the order: of two fractions with one denominator, the greater
/// is not rounded to less.
pub proof fn rounding_keeps_order(format: Format, less: nat, more: nat, den: nat)
    requires
        format.known(),
        den > 0,
        less <= more,
    ensures
        nearest(format, less, den) <= nearest(format, more, den),
{
    let h = format.hidden as nat;
    let p = format.precision as nat;
    lemma_format_powers(format);
    lemma_quotient_bounds(format, less, den);
    lemma_quotient_bounds(format, more, den);
    lemma_shift_grows(less, more, den, p);
    let a = shift_for(less, den, p);
    let b = shift_for(more, den, p);
    let qa = less / (den * pow2(a));
    let qb = more / (den * pow2(b));
    if a == b {
        let unit = den * pow2(a);
        lemma_fundamental_div_mod(less as int, unit as int);
        lemma_fundamental_div_mod(more as int, unit as int);
        assert(qa <= qb) by (nonlinear_arith)
            requires
                less <= more,
                less == unit * qa + less % unit,
                more == unit * qb + more % unit,
                less % unit >= 0,
                more % unit < unit,
                unit > 0,
        ;
    } else {
        assert(a * h + 2 * h <= b * h + h) by (nonlinear_arith)
            requires
                a + 1 <= b,
        ;
    }
}

/// What can be told exactly is not changed by rounding.
pub proof fn rounding_keeps_values(format: Format, m: nat, den: nat)
    requires
        format.known(),
        den > 0,
        m < format.infinity,
    ensures
        nearest(format, den * value_of(format, m), den) == m,
{
    let h = format.hidden as nat;
    let p = format.precision as nat;
    let s = super::format::scale_of(format, m);
    let q = super::format::significand_of(format, m);
    lemma_format_powers(format);
    super::format::lemma_split(format, m);
    let w = pow2(s);
    lemma_pow2_pos(s);
    let unit = den * w;
    let num = den * value_of(format, m);
    assert(num == unit * q) by (nonlinear_arith)
        requires
            num == den * (q * w),
            unit == den * w,
    ;
    assert(unit > 0) by (nonlinear_arith)
        requires
            den > 0,
            w > 0,
            unit == den * w,
    ;
    lemma_pow2_adds(p, s);
    assert(num < den * ((2 * h) * w)) by (nonlinear_arith)
        requires
            num == den * (q * w),
            q < 2 * h,
            den > 0,
            w > 0,
    ;
    if s > 0 {
        lemma_pow2_adds((p - 1) as nat, s);
        assert(num >= den * (h * w)) by (nonlinear_arith)
            requires
                num == den * (q * w),
                q >= h,
        ;
    }
    lemma_shift_value(num, den, p, s);
    lemma_fundamental_div_mod_converse(num as int, unit as int, q as int, 0);
}

} // verus!
