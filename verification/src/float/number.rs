//! Numbers of the two formats.

use super::arith::{
    compute_dyadic, compute_product, compute_quotient, compute_sum, compute_whole, convert,
    converted, dyadic, equals, exceeds, negation, product, quotient, sum, test_equals,
    test_exceeds, whole,
};
use super::format::{binary32, binary64, Format, Signed};
use vstd::prelude::*;

verus! {

/// A number of the 32-bit format, by its bits.
#[derive(Clone, Copy, Debug, PartialEq, Eq, Hash, Structural)]
pub struct Binary32 {
    pub bits: u32,
}

/// A number of the 64-bit format, by its bits.
#[derive(Clone, Copy, Debug, PartialEq, Eq, Hash, Structural)]
pub struct Binary64 {
    pub bits: u64,
}

/// The bits of a sign and a 31-bit magnitude.
pub open spec fn pack32(s: Signed) -> Binary32 {
    Binary32 { bits: (s.magnitude + if s.negative { 0x8000_0000int } else { 0 }) as u32 }
}

/// The bits of a sign and a 63-bit magnitude.
pub open spec fn pack64(s: Signed) -> Binary64 {
    Binary64 {
        bits: (s.magnitude + if s.negative { 0x8000_0000_0000_0000int } else { 0 }) as u64,
    }
}

fn packed32(s: Signed) -> (r: Binary32)
    requires
        s.magnitude < 0x8000_0000,
    ensures
        r == pack32(s),
        r.signed() == s,
{
    if s.negative {
        Binary32 { bits: s.magnitude as u32 + 0x8000_0000 }
    } else {
        Binary32 { bits: s.magnitude as u32 }
    }
}

fn packed64(s: Signed) -> (r: Binary64)
    requires
        s.magnitude < 0x8000_0000_0000_0000,
    ensures
        r == pack64(s),
        r.signed() == s,
{
    if s.negative {
        Binary64 { bits: s.magnitude + 0x8000_0000_0000_0000 }
    } else {
        Binary64 { bits: s.magnitude }
    }
}

/// The single-precision number below all others.
pub open spec fn lowest() -> Binary32 {
    Binary32 { bits: 0xff80_0000 }
}

impl Binary32 {
    /// The sign and the magnitude.
    pub open spec fn signed(self) -> Signed {
        if self.bits >= 0x8000_0000 {
            Signed { negative: true, magnitude: (self.bits - 0x8000_0000) as u64 }
        } else {
            Signed { negative: false, magnitude: self.bits as u64 }
        }
    }

    pub open spec fn is_nan(self) -> bool {
        self.signed().is_nan(binary32())
    }

    /// Whether this number is greater than `other`.
    pub open spec fn gt(self, other: Binary32) -> bool {
        exceeds(binary32(), self.signed(), other.signed())
    }

    /// Whether this number equals `other`.
    pub open spec fn same(self, other: Binary32) -> bool {
        equals(binary32(), self.signed(), other.signed())
    }

    pub open spec fn add_spec(self, other: Binary32) -> Binary32 {
        pack32(sum(binary32(), self.signed(), other.signed()))
    }

    pub open spec fn sub_spec(self, other: Binary32) -> Binary32 {
        pack32(sum(binary32(), self.signed(), negation(other.signed())))
    }

    pub open spec fn mul_spec(self, other: Binary32) -> Binary32 {
        pack32(product(binary32(), self.signed(), other.signed()))
    }

    pub open spec fn div_spec(self, other: Binary32) -> Binary32 {
        pack32(quotient(binary32(), self.signed(), other.signed()))
    }

    /// The number nearest to `n / 2^places`.
    pub open spec fn dyadic(n: nat, places: nat) -> Binary32 {
        pack32(dyadic(binary32(), n, places))
    }

    /// The same number in the 64-bit format.
    pub open spec fn widen_spec(self) -> Binary64 {
        pack64(converted(binary32(), binary64(), self.signed()))
    }

    fn parts(self) -> (r: Signed)
        ensures
            r == self.signed(),
    {
        if self.bits >= 0x8000_0000 {
            Signed { negative: true, magnitude: (self.bits - 0x8000_0000) as u64 }
        } else {
            Signed { negative: false, magnitude: self.bits as u64 }
        }
    }

    pub fn not_a_number(self) -> (r: bool)
        ensures
            r == self.is_nan(),
    {
        self.parts().magnitude > 0x7f80_0000
    }

    pub fn exceeds(self, other: Binary32) -> (r: bool)
        ensures
            r == self.gt(other),
    {
        test_exceeds(&Format::binary32(), self.parts(), other.parts())
    }

    pub fn equals(self, other: Binary32) -> (r: bool)
        ensures
            r == self.same(other),
    {
        test_equals(&Format::binary32(), self.parts(), other.parts())
    }

    pub fn plus(self, other: Binary32) -> (r: Binary32)
        ensures
            r == self.add_spec(other),
    {
        packed32(compute_sum(&Format::binary32(), self.parts(), other.parts()))
    }

    pub fn minus(self, other: Binary32) -> (r: Binary32)
        ensures
            r == self.sub_spec(other),
    {
        let o = other.parts();
        let o = Signed { negative: !o.negative, magnitude: o.magnitude };
        packed32(compute_sum(&Format::binary32(), self.parts(), o))
    }

    pub fn times(self, other: Binary32) -> (r: Binary32)
        ensures
            r == self.mul_spec(other),
    {
        packed32(compute_product(&Format::binary32(), self.parts(), other.parts()))
    }

    pub fn over(self, other: Binary32) -> (r: Binary32)
        ensures
            r == self.div_spec(other),
    {
        packed32(compute_quotient(&Format::binary32(), self.parts(), other.parts()))
    }

    pub fn widen(self) -> (r: Binary64)
        ensures
            r == self.widen_spec(),
    {
        packed64(convert(&Format::binary32(), &Format::binary64(), self.parts()))
    }

    /// The number nearest to `n / 2^places`.
    pub fn from_dyadic(n: u64, places: u32) -> (r: Binary32)
        requires
            places <= 149,
        ensures
            r == Binary32::dyadic(n as nat, places as nat),
    {
        packed32(compute_dyadic(&Format::binary32(), n, places))
    }
}

impl Binary64 {
    /// The sign and the magnitude.
    pub open spec fn signed(self) -> Signed {
        if self.bits >= 0x8000_0000_0000_0000 {
            Signed { negative: true, magnitude: (self.bits - 0x8000_0000_0000_0000) as u64 }
        } else {
            Signed { negative: false, magnitude: self.bits }
        }
    }

    /// Whether this number is greater than `other`.
    pub open spec fn gt(self, other: Binary64) -> bool {
        exceeds(binary64(), self.signed(), other.signed())
    }

    /// Whether this number equals `other`.
    pub open spec fn same(self, other: Binary64) -> bool {
        equals(binary64(), self.signed(), other.signed())
    }

    pub open spec fn add_spec(self, other: Binary64) -> Binary64 {
        pack64(sum(binary64(), self.signed(), other.signed()))
    }

    pub open spec fn sub_spec(self, other: Binary64) -> Binary64 {
        pack64(sum(binary64(), self.signed(), negation(other.signed())))
    }

    pub open spec fn mul_spec(self, other: Binary64) -> Binary64 {
        pack64(product(binary64(), self.signed(), other.signed()))
    }

    pub open spec fn div_spec(self, other: Binary64) -> Binary64 {
        pack64(quotient(binary64(), self.signed(), other.signed()))
    }

    /// The nearest number of the 32-bit format.
    pub open spec fn narrow_spec(self) -> Binary32 {
        pack32(converted(binary64(), binary32(), self.signed()))
    }

    /// The number nearest to `n / 2^places`.
    pub open spec fn dyadic(n: nat, places: nat) -> Binary64 {
        pack64(dyadic(binary64(), n, places))
    }

    /// The number nearest to an integer.
    pub open spec fn of(n: nat) -> Binary64 {
        Binary64::dyadic(n, 0)
    }

    fn parts(self) -> (r: Signed)
        ensures
            r == self.signed(),
    {
        if self.bits >= 0x8000_0000_0000_0000 {
            Signed { negative: true, magnitude: self.bits - 0x8000_0000_0000_0000 }
        } else {
            Signed { negative: false, magnitude: self.bits }
        }
    }

    pub fn exceeds(self, other: Binary64) -> (r: bool)
        ensures
            r == self.gt(other),
    {
        test_exceeds(&Format::binary64(), self.parts(), other.parts())
    }

    pub fn equals(self, other: Binary64) -> (r: bool)
        ensures
            r == self.same(other),
    {
        test_equals(&Format::binary64(), self.parts(), other.parts())
    }

    pub fn plus(self, other: Binary64) -> (r: Binary64)
        ensures
            r == self.add_spec(other),
    {
        packed64(compute_sum(&Format::binary64(), self.parts(), other.parts()))
    }

    pub fn minus(self, other: Binary64) -> (r: Binary64)
        ensures
            r == self.sub_spec(other),
    {
        let o = other.parts();
        let o = Signed { negative: !o.negative, magnitude: o.magnitude };
        packed64(compute_sum(&Format::binary64(), self.parts(), o))
    }

    pub fn times(self, other: Binary64) -> (r: Binary64)
        ensures
            r == self.mul_spec(other),
    {
        packed64(compute_product(&Format::binary64(), self.parts(), other.parts()))
    }

    pub fn over(self, other: Binary64) -> (r: Binary64)
        ensures
            r == self.div_spec(other),
    {
        packed64(compute_quotient(&Format::binary64(), self.parts(), other.parts()))
    }

    pub fn narrow(self) -> (r: Binary32)
        ensures
            r == self.narrow_spec(),
    {
        packed32(convert(&Format::binary64(), &Format::binary32(), self.parts()))
    }

    /// The number nearest to `n`.
    pub fn from_integer(n: u64) -> (r: Binary64)
        ensures
            r == Binary64::of(n as nat),
    {
        packed64(compute_dyadic(&Format::binary64(), n, 0))
    }

    /// The number nearest to `n / 2^places`.
    pub fn from_dyadic(n: u64, places: u32) -> (r: Binary64)
        requires
            places <= 1074,
        ensures
            r == Binary64::dyadic(n as nat, places as nat),
    {
        packed64(compute_dyadic(&Format::binary64(), n, places))
    }

    /// The nearest whole number in the range of a 64-bit counter.
    pub fn to_whole(self) -> (r: u64)
        ensures
            r == whole(binary64(), self.signed()),
    {
        compute_whole(&Format::binary64(), self.parts())
    }
}

} // verus!
