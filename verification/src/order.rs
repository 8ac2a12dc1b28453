//! Numeric comparison of two scalars.
use vstd::prelude::*;
use crate::encoding::{lemma_ordinal_landmarks, lemma_ordinal_monotone, ordinal_value};
use crate::scalar::Binary32;

verus! {

/// The ordinal with the sign applied; ordered as the values are.
pub open spec fn signed_ordinal(x: Binary32) -> int {
    if x.sign() {
        -(x.ordinal() as int)
    } else {
        x.ordinal() as int
    }
}

/// Magnitudes compare as their ordinals do.
proof fn lemma_magnitude_order(a: nat, b: nat)
    ensures
        a < b <==> ordinal_value(a) < ordinal_value(b),
        a == b <==> ordinal_value(a) == ordinal_value(b),
        a == 0 <==> ordinal_value(a) == 0,
{
    lemma_ordinal_landmarks();
    if a < b {
        lemma_ordinal_monotone(a, b);
    }
    if b < a {
        lemma_ordinal_monotone(b, a);
    }
    if 0 < a {
        lemma_ordinal_monotone(0, a);
    }
}

/// Values compare as their signed ordinals do.
pub proof fn lemma_signed_order(x: Binary32, y: Binary32)
    ensures
        x.units() < y.units() <==> signed_ordinal(x) < signed_ordinal(y),
        x.units() == y.units() <==> signed_ordinal(x) == signed_ordinal(y),
{
    lemma_magnitude_order(x.ordinal(), y.ordinal());
    lemma_magnitude_order(x.ordinal(), 0);
    lemma_magnitude_order(y.ordinal(), 0);
}

impl Binary32 {
    fn order_key(self) -> (key: i64)
        ensures
            key == signed_ordinal(self),
    {
        let k: u32 = self.ordinal_bits();
        if self.sign_bit() {
            -(k as i64)
        } else {
            k as i64
        }
    }

    /// Whether the scalar is less than `rhs`.
    pub fn lt(self, rhs: Binary32) -> (r: bool)
        ensures
            r == self.spec_lt(rhs),
    {
        proof {
            lemma_signed_order(self, rhs);
        }
        !self.check_nan() && !rhs.check_nan() && self.order_key() < rhs.order_key()
    }

    /// Whether the scalar is less than or equal to `rhs`.
    pub fn le(self, rhs: Binary32) -> (r: bool)
        ensures
            r == self.spec_le(rhs),
    {
        proof {
            lemma_signed_order(self, rhs);
        }
        !self.check_nan() && !rhs.check_nan() && self.order_key() <= rhs.order_key()
    }

    /// Whether the scalar is greater than `rhs`.
    pub fn gt(self, rhs: Binary32) -> (r: bool)
        ensures
            r == rhs.spec_lt(self),
    {
        rhs.lt(self)
    }

    /// Whether the scalar equals `rhs` in value.
    pub fn eq(self, rhs: Binary32) -> (r: bool)
        ensures
            r == self.spec_eq(rhs),
    {
        proof {
            lemma_signed_order(self, rhs);
        }
        !self.check_nan() && !rhs.check_nan() && self.order_key() == rhs.order_key()
    }
}

} // verus!
