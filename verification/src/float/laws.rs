//! How arithmetic and order go together.

use super::arith::{
    exceeds, order_is_numeric, product, quotient, sum,
};
use super::format::{binary32, value_of, Format, Signed};
use super::number::Binary32;
use super::rounding::{nearest, rounding_keeps_order, rounding_keeps_values};
use vstd::arithmetic::power2::*;
use vstd::prelude::*;

verus! {

/// Adding the same number keeps the order.
pub proof fn sum_keeps_order(format: Format, a: Signed, b: Signed, c: Signed)
    requires
        format.known(),
        !a.is_nan(format),
        !b.is_nan(format),
        a.rank() <= b.rank(),
    ensures
        !exceeds(format, sum(format, a, c), sum(format, b, c)),
{
    if a.is_finite(format) && b.is_finite(format) && c.is_finite(format) {
        order_is_numeric(format, a, b);
        let x = a.value(format) + c.value(format);
        let y = b.value(format) + c.value(format);
        assert(x <= y);
        if x >= 0 {
            rounding_keeps_order(format, x as nat, y as nat, 1);
        } else if y < 0 {
            rounding_keeps_order(format, (-y) as nat, (-x) as nat, 1);
        }
        lemma_zero_stays(format);
    }
}

proof fn lemma_zero_stays(format: Format)
    requires
        format.known(),
    ensures
        nearest(format, 0, 1) == 0,
{
    super::format::lemma_split(format, 0);
    rounding_keeps_values(format, 0, 1);
}

/// Adding the same number keeps the order.
pub proof fn addition_keeps_order(a: Binary32, b: Binary32, c: Binary32)
    requires
        !a.is_nan(),
        !b.is_nan(),
        !a.gt(b),
    ensures
        !a.add_spec(c).gt(b.add_spec(c)),
{
    sum_keeps_order(binary32(), a.signed(), b.signed(), c.signed());
}

/// Whether a number is at least one.
pub open spec fn at_least_one(p: Binary32) -> bool {
    !p.is_nan() && !(Binary32 { bits: 0x3f80_0000 }).gt(p)
}

proof fn lemma_value_of_one()
    ensures
        value_of(binary32(), 0x3f80_0000) == pow2(149),
{
    let f = binary32();
    let h = f.hidden as nat;
    assert(0x3f80_0000nat / h == 127);
    assert(super::format::scale_of(f, 0x3f80_0000) == 126);
    assert(super::format::significand_of(f, 0x3f80_0000) == h);
    super::format::lemma_format_powers(f);
    lemma_pow2_adds(23, 126);
}

/// A factor of at least one takes a number no nearer to zero.
pub proof fn factor_moves_away(v: Signed, p: Binary32)
    requires
        v.is_finite(binary32()),
        at_least_one(p),
        p.signed().is_finite(binary32()),
    ensures
        product(binary32(), v, p.signed()).magnitude >= v.magnitude,
        product(binary32(), v, p.signed()).negative == v.negative,
{
    let f = binary32();
    let one = value_of(f, 0x3f80_0000);
    let x = value_of(f, v.magnitude as nat);
    let y = value_of(f, p.signed().magnitude as nat);
    lemma_value_of_one();
    lemma_pow2_pos(149);
    lemma_at_least_one_value(p);
    assert(x * y >= one * x) by (nonlinear_arith)
        requires
            y >= one,
    ;
    rounding_keeps_values(f, v.magnitude as nat, one);
    rounding_keeps_order(f, one * x, x * y, one);
}

proof fn lemma_at_least_one_value(p: Binary32)
    requires
        at_least_one(p),
        p.signed().is_finite(binary32()),
    ensures
        !p.signed().negative,
        value_of(binary32(), p.signed().magnitude as nat) >= value_of(binary32(), 0x3f80_0000),
{
    let f = binary32();
    let m = p.signed().magnitude as nat;
    if 0x3f80_0000 < m {
        super::arith::lemma_value_grows(f, 0x3f80_0000, m);
    }
}

/// A divisor of at least one takes a number no farther from zero.
pub proof fn divisor_moves_closer(v: Signed, p: Binary32)
    requires
        v.is_finite(binary32()),
        at_least_one(p),
        p.signed().is_finite(binary32()),
    ensures
        quotient(binary32(), v, p.signed()).magnitude <= v.magnitude,
        quotient(binary32(), v, p.signed()).negative == v.negative,
{
    let f = binary32();
    let one = value_of(f, 0x3f80_0000);
    let x = value_of(f, v.magnitude as nat);
    let y = value_of(f, p.signed().magnitude as nat);
    lemma_value_of_one();
    lemma_pow2_pos(149);
    lemma_at_least_one_value(p);
    super::format::lemma_split(f, p.signed().magnitude as nat);
    assert(x * one <= y * x) by (nonlinear_arith)
        requires
            y >= one,
    ;
    rounding_keeps_values(f, v.magnitude as nat, y);
    rounding_keeps_order(f, x * one, y * x, y);
}

/// Dividing by one gives back what was divided.
pub proof fn one_divides_all(v: Binary32)
    requires
        v.signed().is_finite(binary32()),
    ensures
        v.div_spec(Binary32 { bits: 0x3f80_0000 }) == v,
{
    let f = binary32();
    let one = value_of(f, 0x3f80_0000);
    lemma_value_of_one();
    lemma_pow2_pos(149);
    let x = value_of(f, v.signed().magnitude as nat);
    assert(x * one == one * x) by (nonlinear_arith);
    rounding_keeps_values(f, v.signed().magnitude as nat, one);
}

} // verus!
