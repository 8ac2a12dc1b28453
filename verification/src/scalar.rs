//! The scalar of the kinematics: an IEEE 754 binary32 datum held as its
//! encoding, with the meaning of every arithmetic operation stated over
//! exact integers.
//!
//! A finite datum denotes `units()` times 2^-149. Each operation is defined
//! as the exact result on those integers, rounded to nearest with ties to
//! even; the exceptional cases follow IEEE 754 with every NaN result being
//! the one quiet NaN `Binary32::nan()`.
use vstd::prelude::*;
use vstd::arithmetic::power2::pow2;
use crate::encoding::{
    exponent_of,
    lemma_ordinal_split,
    ordinal_value,
    significand_of,
    INFINITY_ORDINAL,
    QUIET_NAN_ORDINAL,
};
use crate::rounding::{round_ratio, round_root};

verus! {

/// A binary32 datum, identified with the 32 bits of its encoding.
#[derive(Clone, Copy, Debug)]
pub struct Binary32 {
    pub bits: u32,
}

impl Binary32 {
    /// The sign bit is set.
    pub open spec fn sign(self) -> bool {
        self.bits >= 0x8000_0000
    }

    /// The encoding without its sign bit.
    pub open spec fn ordinal(self) -> nat {
        (self.bits % 0x8000_0000) as nat
    }

    pub open spec fn is_nan(self) -> bool {
        self.ordinal() > INFINITY_ORDINAL
    }

    pub open spec fn is_infinite(self) -> bool {
        self.ordinal() == INFINITY_ORDINAL
    }

    pub open spec fn is_finite(self) -> bool {
        self.ordinal() < INFINITY_ORDINAL
    }

    pub open spec fn is_zero(self) -> bool {
        self.ordinal() == 0
    }

    /// Magnitude in units of 2^-149; 2^277 for an infinity.
    pub open spec fn abs_units(self) -> int
        recommends
            !self.is_nan(),
    {
        ordinal_value(self.ordinal()) as int
    }

    /// Signed value in units of 2^-149; both zeros denote 0.
    pub open spec fn units(self) -> int
        recommends
            !self.is_nan(),
    {
        if self.sign() {
            -self.abs_units()
        } else {
            self.abs_units()
        }
    }

    /// The datum with the given sign and ordinal.
    pub open spec fn from_parts(negative: bool, ordinal: nat) -> Binary32
        recommends
            ordinal < 0x8000_0000,
    {
        Binary32 {
            bits: if negative {
                (ordinal + 0x8000_0000) as u32
            } else {
                ordinal as u32
            },
        }
    }

    /// The quiet NaN that every invalid operation returns.
    pub open spec fn nan() -> Binary32 {
        Binary32 { bits: QUIET_NAN_ORDINAL }
    }

    /// Negation flips the sign bit, of a NaN too.
    pub open spec fn spec_neg(self) -> Binary32 {
        Self::from_parts(!self.sign(), self.ordinal())
    }

    /// The product: the exact product of the two values, rounded.
    pub open spec fn spec_mul(self, rhs: Binary32) -> Binary32 {
        let negative = self.sign() != rhs.sign();
        if self.is_nan() || rhs.is_nan() {
            Self::nan()
        } else if self.is_infinite() || rhs.is_infinite() {
            if self.is_zero() || rhs.is_zero() {
                Self::nan()
            } else {
                Self::from_parts(negative, INFINITY_ORDINAL as nat)
            }
        } else {
            Self::from_parts(
                negative,
                round_ratio(self.abs_units() * rhs.abs_units(), pow2(149) as int),
            )
        }
    }

    /// The sum: the exact sum of the two values, rounded. An exact sum of
    /// zero is positive unless both operands are negative.
    pub open spec fn spec_add(self, rhs: Binary32) -> Binary32 {
        if self.is_nan() || rhs.is_nan() {
            Self::nan()
        } else if self.is_infinite() {
            if rhs.is_infinite() && self.sign() != rhs.sign() {
                Self::nan()
            } else {
                self
            }
        } else if rhs.is_infinite() {
            rhs
        } else {
            Self::finite_sum(self, rhs)
        }
    }

    /// The rounded sum of two finite scalars.
    pub open spec fn finite_sum(x: Binary32, y: Binary32) -> Binary32 {
        let total = x.units() + y.units();
        if total == 0 {
            Self::from_parts(x.sign() && y.sign(), 0)
        } else if total < 0 {
            Self::from_parts(true, round_ratio(-total, 1))
        } else {
            Self::from_parts(false, round_ratio(total, 1))
        }
    }

    /// The difference: the sum with the negated right operand.
    pub open spec fn spec_sub(self, rhs: Binary32) -> Binary32 {
        self.spec_add(rhs.spec_neg())
    }

    /// The quotient: the exact quotient of the two values, rounded.
    pub open spec fn spec_div(self, rhs: Binary32) -> Binary32 {
        let negative = self.sign() != rhs.sign();
        if self.is_nan() || rhs.is_nan() {
            Self::nan()
        } else if self.is_infinite() {
            if rhs.is_infinite() {
                Self::nan()
            } else {
                Self::from_parts(negative, INFINITY_ORDINAL as nat)
            }
        } else if rhs.is_infinite() {
            Self::from_parts(negative, 0)
        } else if rhs.is_zero() {
            if self.is_zero() {
                Self::nan()
            } else {
                Self::from_parts(negative, INFINITY_ORDINAL as nat)
            }
        } else {
            Self::from_parts(
                negative,
                round_ratio(self.abs_units() * pow2(149), rhs.abs_units()),
            )
        }
    }

    /// The square root: the exact root of the value, rounded. Zeros keep
    /// their sign; every other negative operand gives NaN.
    pub open spec fn spec_sqrt(self) -> Binary32 {
        if self.is_nan() {
            Self::nan()
        } else if self.is_zero() {
            self
        } else if self.sign() {
            Self::nan()
        } else if self.is_infinite() {
            self
        } else {
            Self::from_parts(false, round_root(self.abs_units() * pow2(149)))
        }
    }

    /// Less than: false when either operand is NaN.
    pub open spec fn spec_lt(self, rhs: Binary32) -> bool {
        !self.is_nan() && !rhs.is_nan() && self.units() < rhs.units()
    }

    /// Less than or equal: false when either operand is NaN.
    pub open spec fn spec_le(self, rhs: Binary32) -> bool {
        !self.is_nan() && !rhs.is_nan() && self.units() <= rhs.units()
    }

    /// Numeric equality: false when either operand is NaN, true of the two zeros.
    pub open spec fn spec_eq(self, rhs: Binary32) -> bool {
        !self.is_nan() && !rhs.is_nan() && self.units() == rhs.units()
    }

    /// Positive zero.
    pub open spec fn spec_zero() -> Binary32 {
        Binary32 { bits: 0 }
    }

    /// One.
    pub open spec fn spec_one() -> Binary32 {
        Binary32 { bits: 0x3f80_0000 }
    }

    /// The datum with the given encoding.
    pub fn from_bits(bits: u32) -> (r: Binary32)
        ensures
            r.bits == bits,
    {
        Binary32 { bits }
    }

    /// The encoding of the datum.
    pub fn to_bits(self) -> (bits: u32)
        ensures
            bits == self.bits,
    {
        self.bits
    }

    /// Positive zero.
    pub fn zero() -> (r: Binary32)
        ensures
            r == Self::spec_zero(),
    {
        Binary32 { bits: 0 }
    }

    /// The sign bit.
    pub fn sign_bit(self) -> (negative: bool)
        ensures
            negative == self.sign(),
    {
        self.bits >= 0x8000_0000
    }

    /// The encoding without its sign bit.
    pub fn ordinal_bits(self) -> (k: u32)
        ensures
            k == self.ordinal(),
            k < 0x8000_0000,
    {
        self.bits % 0x8000_0000
    }

    /// Assembles a datum from a sign and an ordinal.
    pub fn assemble(negative: bool, ordinal: u32) -> (r: Binary32)
        requires
            ordinal < 0x8000_0000,
        ensures
            r == Self::from_parts(negative, ordinal as nat),
            r.sign() == negative,
            r.ordinal() == ordinal,
    {
        if negative {
            Binary32 { bits: ordinal + 0x8000_0000 }
        } else {
            Binary32 { bits: ordinal }
        }
    }

    /// The quiet NaN.
    pub fn quiet_nan() -> (r: Binary32)
        ensures
            r == Self::nan(),
            r.is_nan(),
    {
        Binary32 { bits: QUIET_NAN_ORDINAL }
    }

    /// Whether the datum is a NaN.
    pub fn check_nan(self) -> (r: bool)
        ensures
            r == self.is_nan(),
    {
        self.bits % 0x8000_0000 > INFINITY_ORDINAL
    }

    /// The datum with its sign flipped.
    pub fn neg(self) -> (r: Binary32)
        ensures
            r == self.spec_neg(),
    {
        Self::assemble(!self.sign_bit(), self.ordinal_bits())
    }
}

/// Exponent and significand of a finite ordinal.
pub fn split_ordinal(k: u32) -> (parts: (u32, u64))
    requires
        k <= INFINITY_ORDINAL,
    ensures
        parts.0 == exponent_of(k as nat),
        parts.1 == significand_of(k as nat),
        parts.0 <= 254,
        parts.1 < 0x100_0000,
        parts.0 > 0 ==> parts.1 >= 0x80_0000,
        k < INFINITY_ORDINAL ==> parts.0 <= 253,
        k > 0 ==> parts.1 > 0,
{
    proof {
        lemma_ordinal_split(k as nat);
    }
    if k < 0x100_0000 {
        (0, k as u64)
    } else {
        let e: u32 = k / 0x80_0000 - 1;
        (e, (k - e * 0x80_0000) as u64)
    }
}

} // verus!
