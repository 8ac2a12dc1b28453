//! Multiplication of two scalars.
use vstd::prelude::*;
use vstd::arithmetic::power2::{lemma_pow2_pos, pow2};
use crate::powers::lemma_pow2_product;
use crate::encoding::INFINITY_ORDINAL;
use crate::rounding::{lemma_round_ratio_is, lemma_rounds_to_same_ratio};
use crate::nearest::{fraction, fraction_unit, round_sticky};
use crate::scalar::{split_ordinal, Binary32};

verus! {

/// The product of two magnitudes `ma * 2^ea` and `mb * 2^eb`, both in units
/// of 2^-149, is the fraction `(ma * mb) * 2^(ea + eb - 149)` in that unit.
proof fn lemma_product_fraction(ma: int, ea: nat, mb: int, eb: nat)
    ensures
        fraction(ma * mb, ea + eb - 149) * pow2(149) == ((ma * pow2(ea)) * (mb * pow2(eb)))
            * fraction_unit(),
        pow2(149) > 0,
        fraction_unit() > 0,
{
    let exp = ea + eb - 149;
    lemma_pow2_product((exp + 512) as nat, 149);
    lemma_pow2_product(ea, eb);
    lemma_pow2_product(ea + eb, 512);
    lemma_pow2_pos(512);
    let pa = pow2(ea) as int;
    let pb = pow2(eb) as int;
    let q = fraction_unit();
    let fine = pow2((exp + 512) as nat) as int;
    let shift = pow2(149) as int;
    assert(((ma * mb) * fine) * shift == ((ma * pa) * (mb * pb)) * q) by (nonlinear_arith)
        requires
            fine * shift == (pa * pb) * q,
    {
        assert(((ma * mb) * fine) * shift == (ma * mb) * (fine * shift));
        assert(((ma * pa) * (mb * pb)) * q == (ma * mb) * ((pa * pb) * q));
    }
}

impl Binary32 {
    /// Multiplies two scalars.
    pub fn mul(self, rhs: Binary32) -> (r: Binary32)
        ensures
            r == self.spec_mul(rhs),
            !r.is_nan() ==> r.sign() == (self.sign() != rhs.sign()),
    {
        let negative: bool = self.sign_bit() != rhs.sign_bit();
        let a: u32 = self.ordinal_bits();
        let b: u32 = rhs.ordinal_bits();
        if a > INFINITY_ORDINAL || b > INFINITY_ORDINAL {
            return Self::quiet_nan();
        }
        if a == INFINITY_ORDINAL || b == INFINITY_ORDINAL {
            if a == 0 || b == 0 {
                return Self::quiet_nan();
            }
            return Self::assemble(negative, INFINITY_ORDINAL);
        }
        let (ea, ma) = split_ordinal(a);
        let (eb, mb) = split_ordinal(b);
        assert(ma * mb < 0x1_0000_0000_0000) by (nonlinear_arith)
            requires
                ma < 0x100_0000,
                mb < 0x100_0000,
        ;
        let sig: u64 = ma * mb;
        let exp: i32 = ea as i32 + eb as i32 - 149;
        let k: u32 = round_sticky(sig, exp, false);
        proof {
            lemma_product_fraction(ma as int, ea as nat, mb as int, eb as nat);
            lemma_rounds_to_same_ratio(
                fraction(sig as int, exp as int),
                fraction_unit(),
                self.abs_units() * rhs.abs_units(),
                pow2(149) as int,
                k as nat,
            );
            lemma_round_ratio_is(self.abs_units() * rhs.abs_units(), pow2(149) as int, k as nat);
        }
        Self::assemble(negative, k)
    }
}

} // verus!
