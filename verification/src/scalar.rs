//! IEEE 754 binary32 numbers as bit patterns.
//!
//! A `Scalar` holds the 32 bits of a single-precision number: one sign bit,
//! eight exponent bits, twenty-three fraction bits. Every finite magnitude is
//! a whole number of units of 2^-149, which `scaled` gives; the arithmetic of
//! this library is stated over that number and over `nearest`, the rounding
//! to the nearest representable magnitude with ties to even.

use vstd::prelude::*;
use vstd::arithmetic::power2::*;
use crate::rounding::INFINITY_BITS;

verus! {

/// The sign bit.
pub const SIGN_BIT: u32 = 0x8000_0000;

/// The implicit leading bit of a normal significand, 2^23.
pub const HIDDEN_BIT: u32 = 0x80_0000;

/// The bits of the one not-a-number that the arithmetic produces.
pub const NAN_BITS: u32 = 0x7fc0_0000;

/// A single-precision number, held as its bit pattern.
#[derive(Clone, Copy, Debug, PartialEq, Eq, Structural)]
pub struct Scalar {
    pub bits: u32,
}

/// The significand of the finite magnitude with bits `mag`: the fraction
/// bits, with the hidden bit where the exponent field is not zero.
pub open spec fn significand_of(mag: nat) -> nat {
    if mag < 0x80_0000 {
        mag
    } else {
        0x80_0000 + mag % 0x80_0000
    }
}

/// The power of two, in units of 2^-149, that the significand of `mag` is
/// multiplied by: the exponent field less one, and zero for subnormals.
pub open spec fn exponent_of(mag: nat) -> nat {
    if mag < 0x100_0000 {
        0
    } else {
        (mag / 0x80_0000 - 1) as nat
    }
}

/// The magnitude with bits `mag`, in units of 2^-149. On the bits of
/// infinity this is 2^277, above every finite magnitude.
pub open spec fn scaled_of(mag: nat) -> nat {
    significand_of(mag) * pow2(exponent_of(mag))
}

/// The number with the given sign and magnitude bits.
pub open spec fn signed(negative: bool, mag: nat) -> Scalar {
    Scalar {
        bits: if negative {
            (mag + 0x8000_0000) as u32
        } else {
            mag as u32
        },
    }
}

/// The number with the given bits.
pub open spec fn number(bits: u32) -> Scalar {
    Scalar { bits }
}

/// Zero.
pub open spec fn zero() -> Scalar {
    Scalar { bits: 0 }
}

/// One half.
pub open spec fn half() -> Scalar {
    Scalar { bits: 0x3f00_0000 }
}

/// One.
pub open spec fn one() -> Scalar {
    Scalar { bits: 0x3f80_0000 }
}

/// Two.
pub open spec fn two() -> Scalar {
    Scalar { bits: 0x4000_0000 }
}

/// The not-a-number that the arithmetic produces.
pub open spec fn not_a_number() -> Scalar {
    Scalar { bits: NAN_BITS }
}

/// Larger magnitude bits mean a larger magnitude.
pub proof fn lemma_scaled_monotonic(a: nat, b: nat)
    requires
        a < b <= 0x7fff_ffff,
    ensures
        scaled_of(a) < scaled_of(b),
{
    lemma2_to64();
    let ka = significand_of(a);
    let kb = significand_of(b);
    let ja = exponent_of(a);
    let jb = exponent_of(b);
    let wa = pow2(ja);
    let wb = pow2(jb);
    lemma_pow2_pos(ja);
    lemma_pow2_pos(jb);
    assert(ka < 0x100_0000 && kb < 0x100_0000);
    if ja == jb {
        assert(ka < kb);
        assert(ka * wa < kb * wa) by (nonlinear_arith)
            requires
                ka < kb,
                wa > 0,
        ;
    } else {
        assert(ja < jb);
        assert(kb >= 0x80_0000);
        lemma_pow2_unfold(jb);
        if ja < jb - 1 {
            lemma_pow2_strictly_increases(ja, (jb - 1) as nat);
        }
        let half = pow2((jb - 1) as nat);
        assert(wa <= half);
        assert(ka * wa < kb * wb) by (nonlinear_arith)
            requires
                ka < 0x100_0000,
                kb >= 0x80_0000,
                wb == 2 * half,
                wa <= half,
                wa > 0,
        ;
    }
}

impl Scalar {
    /// The bits without the sign.
    pub open spec fn magnitude(self) -> nat {
        (self.bits % 0x8000_0000) as nat
    }

    /// Whether the sign bit is set.
    pub open spec fn is_negative(self) -> bool {
        self.bits >= 0x8000_0000
    }

    /// Whether this is a not-a-number.
    pub open spec fn is_nan(self) -> bool {
        self.magnitude() > 0x7f80_0000
    }

    /// Whether this is one of the two infinities.
    pub open spec fn is_infinite(self) -> bool {
        self.magnitude() == 0x7f80_0000
    }

    /// Whether this is a number other than the infinities.
    pub open spec fn is_finite(self) -> bool {
        self.magnitude() < 0x7f80_0000
    }

    /// Whether this is one of the two zeros.
    pub open spec fn is_zero(self) -> bool {
        self.magnitude() == 0
    }

    /// The magnitude in units of 2^-149; 2^277 for the infinities.
    pub open spec fn scaled(self) -> nat {
        scaled_of(self.magnitude())
    }

    /// The value in units of 2^-149, as a signed integer.
    pub open spec fn value(self) -> int {
        if self.is_negative() {
            -(self.scaled() as int)
        } else {
            self.scaled() as int
        }
    }

    /// `self < other` as numbers: false when either is a not-a-number, and
    /// the two zeros are equal.
    pub open spec fn below(self, other: Scalar) -> bool {
        !self.is_nan() && !other.is_nan() && self.value() < other.value()
    }

    /// `self == other` as numbers: false when either is a not-a-number, and
    /// the two zeros are equal.
    pub open spec fn same_number(self, other: Scalar) -> bool {
        !self.is_nan() && !other.is_nan() && self.value() == other.value()
    }

    /// The number with the opposite sign bit.
    pub open spec fn negated(self) -> Scalar {
        signed(!self.is_negative(), self.magnitude())
    }

    /// The number with these bits.
    pub fn from_bits(bits: u32) -> (r: Scalar)
        ensures
            r == number(bits),
    {
        Scalar { bits }
    }

    /// The bits of this number.
    pub fn to_bits(self) -> (r: u32)
        ensures
            r == self.bits,
    {
        self.bits
    }

    /// The bits without the sign.
    pub fn magnitude_bits(self) -> (r: u32)
        ensures
            r == self.magnitude(),
            r <= 0x7fff_ffff,
    {
        self.bits % 0x8000_0000
    }

    /// Whether the sign bit is set.
    pub fn sign(self) -> (r: bool)
        ensures
            r == self.is_negative(),
    {
        self.bits >= 0x8000_0000
    }

    /// Builds a number from a sign and magnitude bits.
    pub fn with_sign(negative: bool, mag: u32) -> (r: Scalar)
        requires
            mag <= 0x7fff_ffff,
        ensures
            r == signed(negative, mag as nat),
            r.magnitude() == mag,
            r.is_negative() == negative,
    {
        if negative {
            Scalar { bits: mag + 0x8000_0000 }
        } else {
            Scalar { bits: mag }
        }
    }

    /// The not-a-number that the arithmetic produces.
    pub fn nan() -> (r: Scalar)
        ensures
            r == not_a_number(),
            r.is_nan(),
    {
        Scalar { bits: NAN_BITS }
    }

    /// Significand and exponent of a finite number, and of the infinities.
    pub fn decode(self) -> (r: (u64, i32))
        ensures
            r.0 == significand_of(self.magnitude()),
            r.1 == exponent_of(self.magnitude()),
            r.0 < 0x100_0000,
            0 <= r.1 <= 254,
            r.1 > 0 ==> r.0 >= 0x80_0000,
            r.0 * pow2(r.1 as nat) == self.scaled(),
    {
        let mag: u32 = self.magnitude_bits();
        if mag < 0x80_0000 {
            (mag as u64, 0)
        } else if mag < 0x100_0000 {
            ((0x80_0000 + mag % 0x80_0000) as u64, 0)
        } else {
            ((0x80_0000 + mag % 0x80_0000) as u64, (mag / 0x80_0000 - 1) as i32)
        }
    }

    /// The number with the opposite sign.
    pub fn neg(self) -> (r: Scalar)
        ensures
            r == self.negated(),
    {
        Scalar::with_sign(!self.sign(), self.magnitude_bits())
    }
}

/// Only the zero magnitude has the value zero.
pub proof fn lemma_scaled_zero(mag: nat)
    requires
        mag <= 0x7fff_ffff,
    ensures
        (scaled_of(mag) == 0) == (mag == 0),
{
    lemma2_to64();
    assert(scaled_of(0) == 0) by (nonlinear_arith)
        requires
            scaled_of(0) == 0 * pow2(0),
    ;
    if mag > 0 {
        lemma_scaled_monotonic(0, mag);
    }
}

impl Scalar {
    /// Zero.
    pub fn zero() -> (r: Scalar)
        ensures
            r == self::zero(),
    {
        Scalar { bits: 0 }
    }

    /// One.
    pub fn one() -> (r: Scalar)
        ensures
            r == self::one(),
    {
        Scalar { bits: 0x3f80_0000 }
    }

    /// One half.
    pub fn half() -> (r: Scalar)
        ensures
            r == self::half(),
    {
        Scalar { bits: 0x3f00_0000 }
    }

    /// Two.
    pub fn two() -> (r: Scalar)
        ensures
            r == self::two(),
    {
        Scalar { bits: 0x4000_0000 }
    }

    /// `self < other` as numbers.
    pub fn lt(self, other: Scalar) -> (r: bool)
        ensures
            r == self.below(other),
    {
        let ma: u32 = self.magnitude_bits();
        let mb: u32 = other.magnitude_bits();
        if ma > INFINITY_BITS || mb > INFINITY_BITS {
            return false;
        }
        proof {
            if ma < mb {
                lemma_scaled_monotonic(ma as nat, mb as nat);
            }
            if mb < ma {
                lemma_scaled_monotonic(mb as nat, ma as nat);
            }
            lemma_scaled_zero(ma as nat);
            lemma_scaled_zero(mb as nat);
        }
        let na: bool = self.sign();
        let nb: bool = other.sign();
        if na {
            if nb {
                mb < ma
            } else {
                ma != 0 || mb != 0
            }
        } else {
            if nb {
                false
            } else {
                ma < mb
            }
        }
    }

    /// `self == other` as numbers.
    pub fn eq_number(self, other: Scalar) -> (r: bool)
        ensures
            r == self.same_number(other),
    {
        let ma: u32 = self.magnitude_bits();
        let mb: u32 = other.magnitude_bits();
        if ma > INFINITY_BITS || mb > INFINITY_BITS {
            return false;
        }
        proof {
            if ma < mb {
                lemma_scaled_monotonic(ma as nat, mb as nat);
            }
            if mb < ma {
                lemma_scaled_monotonic(mb as nat, ma as nat);
            }
            lemma_scaled_zero(ma as nat);
            lemma_scaled_zero(mb as nat);
        }
        (ma == 0 && mb == 0) || self.bits == other.bits
    }

    /// `self > other` as numbers.
    pub fn gt(self, other: Scalar) -> (r: bool)
        ensures
            r == other.below(self),
    {
        other.lt(self)
    }
}

} // verus!
