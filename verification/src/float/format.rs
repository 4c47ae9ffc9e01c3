//! Formats, and what a bit pattern stands for.

use vstd::arithmetic::power2::{lemma2_to64, lemma2_to64_rest, lemma_pow2_pos, pow2};
use vstd::prelude::*;

verus! {

/// A binary interchange format.
///
/// A pattern is a sign bit and a magnitude. The magnitudes below `infinity`
/// are the finite ones, `infinity` is the infinite one, and those above it are
/// not numbers. Finite values are whole multiples of the least positive one,
/// which is two to the power of minus `unit`.
#[derive(Clone, Copy, Debug, PartialEq, Eq, Structural)]
pub struct Format {
    /// Bits of a significand, the hidden one counted.
    pub precision: u32,
    /// Two to the power of `precision - 1`, the hidden bit.
    pub hidden: u64,
    /// The magnitude of the infinities.
    pub infinity: u64,
    /// The exponent of the least positive value, negated.
    pub unit: u32,
}

/// The 32-bit format.
pub open spec fn binary32() -> Format {
    Format { precision: 24, hidden: 0x80_0000, infinity: 0x7f80_0000, unit: 149 }
}

/// The 64-bit format.
pub open spec fn binary64() -> Format {
    Format {
        precision: 53,
        hidden: 0x10_0000_0000_0000,
        infinity: 0x7ff0_0000_0000_0000,
        unit: 1074,
    }
}

impl Format {
    /// The two formats that the library uses.
    pub open spec fn known(self) -> bool {
        self == binary32() || self == binary64()
    }

    pub fn binary32() -> (format: Format)
        ensures
            format == binary32(),
    {
        Format { precision: 24, hidden: 0x80_0000, infinity: 0x7f80_0000, unit: 149 }
    }

    pub fn binary64() -> (format: Format)
        ensures
            format == binary64(),
    {
        Format {
            precision: 53,
            hidden: 0x10_0000_0000_0000,
            infinity: 0x7ff0_0000_0000_0000,
            unit: 1074,
        }
    }
}

/// How often the significand of the finite magnitude `m` is doubled.
pub open spec fn scale_of(format: Format, m: nat) -> nat {
    if m < format.hidden {
        0
    } else {
        (m / format.hidden as nat - 1) as nat
    }
}

/// The significand of the finite magnitude `m`.
pub open spec fn significand_of(format: Format, m: nat) -> nat {
    (m - scale_of(format, m) * format.hidden) as nat
}

/// The value of the finite magnitude `m`, in units of the least positive value.
pub open spec fn value_of(format: Format, m: nat) -> nat {
    significand_of(format, m) * pow2(scale_of(format, m))
}

/// A sign and a magnitude.
#[derive(Clone, Copy, Debug, PartialEq, Eq, Structural)]
pub struct Signed {
    pub negative: bool,
    pub magnitude: u64,
}

impl Signed {
    pub open spec fn is_nan(self, format: Format) -> bool {
        self.magnitude > format.infinity
    }

    pub open spec fn is_infinite(self, format: Format) -> bool {
        self.magnitude == format.infinity
    }

    pub open spec fn is_finite(self, format: Format) -> bool {
        self.magnitude < format.infinity
    }

    pub open spec fn is_zero(self) -> bool {
        self.magnitude == 0
    }

    /// The value of a finite number, in units of the least positive value.
    pub open spec fn value(self, format: Format) -> int {
        if self.negative {
            -(value_of(format, self.magnitude as nat) as int)
        } else {
            value_of(format, self.magnitude as nat) as int
        }
    }

    /// The magnitude as an integer with the number's sign. Among numbers it
    /// grows with the value: see `order_is_numeric`.
    pub open spec fn rank(self) -> int {
        if self.negative {
            -(self.magnitude as int)
        } else {
            self.magnitude as int
        }
    }
}

/// The pattern that stands for an undefined result.
pub open spec fn nan(format: Format) -> Signed {
    Signed { negative: false, magnitude: (format.infinity + format.hidden / 2) as u64 }
}

/// The powers of two that the two formats are made of.
pub proof fn lemma_format_powers(format: Format)
    requires
        format.known(),
    ensures
        format.hidden == pow2((format.precision - 1) as nat),
        2 * format.hidden == pow2(format.precision as nat),
        format.precision >= 24,
{
    lemma2_to64();
    lemma2_to64_rest();
}

/// Finite magnitudes have short significands and small scales.
pub proof fn lemma_split(format: Format, m: nat)
    requires
        format.known(),
        m < format.infinity,
    ensures
        significand_of(format, m) < 2 * format.hidden,
        scale_of(format, m) <= 2045,
        m < format.hidden ==> scale_of(format, m) == 0 && significand_of(format, m) == m,
        m >= format.hidden ==> significand_of(format, m) >= format.hidden,
        m >= format.hidden ==> m / format.hidden as nat >= 1,
        m == scale_of(format, m) * format.hidden + significand_of(format, m),
        (m == 0) == (significand_of(format, m) == 0),
        (m == 0) == (value_of(format, m) == 0),
{
    let h = format.hidden as nat;
    if m >= h {
        vstd::arithmetic::div_mod::lemma_fundamental_div_mod(m as int, h as int);
        let k = m / h;
        assert(k >= 1) by (nonlinear_arith)
            requires
                k == m / h,
                m >= h,
                h > 0,
        ;
        assert((k - 1) * h == h * k - h) by (nonlinear_arith);
        assert(k <= 2046) by (nonlinear_arith)
            requires
                k == m / h,
                m < 2047 * h,
                h > 0,
        ;
    } else {
        assert(0 * h == 0);
    }
    lemma_pow2_pos(scale_of(format, m));
    let s = significand_of(format, m);
    let p = pow2(scale_of(format, m));
    assert((s == 0) == (s * p == 0)) by (nonlinear_arith)
        requires
            p > 0,
    ;
}

/// The significand and the scale of a finite magnitude.
pub fn split(format: &Format, m: u64) -> (r: (u64, u32))
    requires
        format.known(),
        m < format.infinity,
    ensures
        r.0 == significand_of(*format, m as nat),
        r.1 == scale_of(*format, m as nat),
        r.0 < 2 * format.hidden,
        r.1 <= 2045,
{
    proof {
        lemma_split(*format, m as nat);
    }
    if m < format.hidden {
        (m, 0)
    } else {
        let scale: u64 = m / format.hidden - 1;
        proof {
            assert(scale == scale_of(*format, m as nat));
        }
        (m - scale * format.hidden, scale as u32)
    }
}

} // verus!
