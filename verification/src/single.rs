//! Single-precision numbers as IEEE 754 binary32 bit patterns.
//!
//! A finite pattern stands for a whole number of *units*, one unit being the
//! smallest positive subnormal, two to the power of minus 149.
use vstd::prelude::*;
use vstd::arithmetic::power2::pow2;

verus! {

/// The sign bit of a pattern.
pub const SIGN_BIT: u32 = 0x8000_0000;

/// The magnitude of both infinities; greater magnitudes are NaNs.
pub const INFINITY_BITS: u32 = 0x7f80_0000;

/// The quiet NaN that arithmetic returns for an invalid operation.
pub const NAN_BITS: u32 = 0x7fc0_0000;

/// A single-precision number. `==` compares bit patterns, so it tells `0.0` from
/// `-0.0` and takes two NaNs with one payload for equal.
#[derive(Clone, Copy, Debug, PartialEq, Eq, Structural)]
pub struct Single {
    pub bits: u32,
}

/// The significand of a magnitude: the fraction field, with the hidden bit for a
/// normal number.
pub open spec fn significand(mag: nat) -> nat {
    if mag < 0x80_0000 {
        mag
    } else {
        0x80_0000 + mag % 0x80_0000
    }
}

/// The power of two, in units, that the significand of a magnitude is scaled by.
pub open spec fn scale(mag: nat) -> nat {
    if mag < 0x100_0000 {
        0
    } else {
        (mag / 0x80_0000 - 1) as nat
    }
}

/// The number of units that a finite magnitude stands for.
pub open spec fn units(mag: nat) -> nat {
    significand(mag) * pow2(scale(mag))
}

impl Single {
    /// The pattern without its sign bit.
    pub open spec fn magnitude(self) -> nat {
        if self.bits >= 0x8000_0000 {
            (self.bits - 0x8000_0000) as nat
        } else {
            self.bits as nat
        }
    }

    /// Whether the sign bit is set; this holds of `-0.0` and may hold of a NaN.
    pub open spec fn negative(self) -> bool {
        self.bits >= 0x8000_0000
    }

    /// Whether the pattern is a NaN.
    pub open spec fn nan(self) -> bool {
        self.magnitude() > 0x7f80_0000
    }

    /// Whether the pattern is an infinity.
    pub open spec fn infinite(self) -> bool {
        self.magnitude() == 0x7f80_0000
    }

    /// Whether the pattern is a number: a zero, a subnormal or a normal.
    pub open spec fn finite(self) -> bool {
        self.magnitude() < 0x7f80_0000
    }

    /// Whether the pattern is a zero of either sign.
    pub open spec fn zero(self) -> bool {
        self.magnitude() == 0
    }

    /// The absolute value of a finite number, in units.
    pub open spec fn abs_units(self) -> nat {
        units(self.magnitude())
    }

    /// The value of a finite number, in units.
    pub open spec fn value(self) -> int {
        if self.negative() {
            -(self.abs_units() as int)
        } else {
            self.abs_units() as int
        }
    }

    /// The number with the given sign and magnitude.
    pub open spec fn compose(negative: bool, mag: nat) -> Single {
        Single { bits: (if negative { mag + 0x8000_0000 } else { mag }) as u32 }
    }

    /// The pattern with the sign bit cleared.
    pub open spec fn abs_spec(self) -> Single {
        Single { bits: self.magnitude() as u32 }
    }

    /// The pattern with the sign bit flipped.
    pub open spec fn neg_spec(self) -> Single {
        Single::compose(!self.negative(), self.magnitude())
    }

    /// What `self >= 0.0` means: not a NaN, and positive or a zero of either sign.
    pub open spec fn ge_zero_spec(self) -> bool {
        !self.nan() && (!self.negative() || self.zero())
    }

    pub fn from_bits(bits: u32) -> (r: Single)
        ensures
            r.bits == bits,
    {
        Single { bits }
    }

    pub fn to_bits(self) -> (r: u32)
        ensures
            r == self.bits,
    {
        self.bits
    }

    /// The magnitude field, as a number below two to the power of 31.
    pub fn mag(self) -> (r: u32)
        ensures
            r == self.magnitude(),
            r < 0x8000_0000,
    {
        if self.bits >= SIGN_BIT {
            self.bits - SIGN_BIT
        } else {
            self.bits
        }
    }

    pub fn is_sign_negative(self) -> (r: bool)
        ensures
            r == self.negative(),
    {
        self.bits >= SIGN_BIT
    }

    pub fn is_nan(self) -> (r: bool)
        ensures
            r == self.nan(),
    {
        self.mag() > INFINITY_BITS
    }

    pub fn is_infinite(self) -> (r: bool)
        ensures
            r == self.infinite(),
    {
        self.mag() == INFINITY_BITS
    }

    pub fn is_finite(self) -> (r: bool)
        ensures
            r == self.finite(),
    {
        self.mag() < INFINITY_BITS
    }

    /// Builds the number with the given sign and magnitude.
    pub fn with_sign(negative: bool, mag: u32) -> (r: Single)
        requires
            mag < 0x8000_0000,
        ensures
            r == Single::compose(negative, mag as nat),
            r.magnitude() == mag,
            r.negative() == negative,
    {
        if negative {
            Single { bits: mag + SIGN_BIT }
        } else {
            Single { bits: mag }
        }
    }

    /// The absolute value: the same pattern with the sign bit cleared. A NaN stays a
    /// NaN.
    pub fn abs(self) -> (r: Single)
        ensures
            r == self.abs_spec(),
            r.magnitude() == self.magnitude(),
            !r.negative(),
    {
        Single { bits: self.mag() }
    }

    /// The negation: the same pattern with the sign bit flipped.
    pub fn neg(self) -> (r: Single)
        ensures
            r == self.neg_spec(),
            r.magnitude() == self.magnitude(),
            r.negative() == !self.negative(),
    {
        Single::with_sign(!self.is_sign_negative(), self.mag())
    }

    /// The comparison `self >= 0.0`: false for a NaN, true for both zeros.
    pub fn ge_zero(self) -> (r: bool)
        ensures
            r == self.ge_zero_spec(),
    {
        let m = self.mag();
        m <= INFINITY_BITS && (self.bits < SIGN_BIT || m == 0)
    }
}

} // verus!
