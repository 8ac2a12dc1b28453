//! Division of two scalars.
use vstd::prelude::*;
use vstd::arithmetic::power2::{lemma2_to64, lemma2_to64_rest, lemma_pow2_pos, pow2};
use crate::powers::{lemma_pow2_ordered, lemma_pow2_product, lemma_regroup};
use crate::encoding::{lemma_ordinal_landmarks, INFINITY_ORDINAL};
use crate::rounding::{
    lemma_round_between,
    lemma_round_exact,
    lemma_round_ratio_is,
    lemma_rounds_to_same_ratio,
};
use crate::nearest::{bit_length, fraction, fraction_unit, power_of_two, round_sticky};
use crate::scalar::{split_ordinal, Binary32};

verus! {

/// Scales a positive significand below 2^24 up to 24 bits. Returns the
/// scaled significand and the number of bits it moved.
pub fn normalize(m: u64) -> (r: (u64, u32))
    requires
        0 < m < 0x100_0000,
    ensures
        r.1 <= 23,
        r.0 == m * pow2(r.1 as nat),
        0x80_0000 <= r.0 < 0x100_0000,
{
    let len: u32 = bit_length(m);
    proof {
        lemma2_to64();
        if len > 24 {
            lemma_pow2_ordered(24, (len - 1) as nat);
        }
    }
    let up: u32 = 24 - len;
    let scale: u64 = power_of_two(up);
    proof {
        lemma_pow2_product(len as nat, up as nat);
        lemma_pow2_product((len - 1) as nat, up as nat);
        let hi = pow2(len as nat) as int;
        let lo = pow2((len - 1) as nat) as int;
        assert(m * scale < hi * scale && lo * scale <= m * scale) by (nonlinear_arith)
            requires
                lo <= m < hi,
                scale > 0,
        ;
    }
    (m * scale, up)
}

/// The weights that relate a quotient of significands to the quotient of
/// the magnitudes `ma * 2^ea` and `mb * 2^eb`.
proof fn lemma_quotient_weights(ma: int, ea: nat, mb: int, eb: nat, up: nat, num: int, t: int)
    requires
        num == (ma * pow2(up)) * pow2(38),
        up <= 23,
        eb <= 254,
    ensures
        ({
            let exp = ea - up - 38 - eb + 149;
            let grain = pow2((exp + 512 + eb) as nat) as int;
            &&& grain > 0
            &&& fraction(t, exp) * (mb * pow2(eb)) == (t * mb) * grain
            &&& ((ma * pow2(ea)) * pow2(149)) * fraction_unit() == num * grain
        }),
{
    let exp = ea - up - 38 - eb + 149;
    let grain = pow2((exp + 512 + eb) as nat) as int;
    let fine = pow2((exp + 512) as nat) as int;
    let pb = pow2(eb) as int;
    let pa = pow2(ea) as int;
    let pu = pow2(up) as int;
    let q = fraction_unit();
    lemma_pow2_pos((exp + 512 + eb) as nat);
    // fraction(t, exp) * (mb * 2^eb) == (t * mb) * grain
    lemma_pow2_product((exp + 512) as nat, eb);
    assert((t * fine) * (mb * pb) == (t * mb) * (fine * pb)) by (nonlinear_arith);
    // ma * 2^ea * 2^149 * 2^512 == ma * 2^up * 2^38 * grain
    lemma_pow2_product(ea, 149);
    lemma_pow2_product(ea + 149, 512);
    lemma_pow2_product(up, 38);
    lemma_pow2_product(up + 38, (exp + 512 + eb) as nat);
    let whole = pow2(ea + 149 + 512) as int;
    lemma_regroup(ma, pa, pow2(149) as int);
    lemma_regroup(ma, pa * pow2(149), q);
    assert(((ma * pa) * pow2(149)) * q == ma * whole);
    lemma_regroup(ma, pu, pow2(38) as int);
    lemma_regroup(ma, pu * pow2(38), grain);
    assert(num * grain == ma * whole);
}

/// A quotient of a numerator of at least 61 bits by a divisor below 2^24 has
/// at least 38 bits.
proof fn lemma_quotient_size(num: int, mb: int, qt: int, rem: int)
    by (nonlinear_arith)
    requires
        0x2000_0000_0000_0000 <= num < 0x4000_0000_0000_0000,
        0 < mb < 0x100_0000,
        num == qt * mb + rem,
        0 <= rem < mb,
    ensures
        0x20_0000_0000 <= qt < 0x4000_0000_0000_0000,
        rem == 0 ==> qt * mb == num,
        rem != 0 ==> qt * mb < num < (qt + 1) * mb,
{
    assert((qt + 1) * mb == qt * mb + mb);
    if qt < 0x20_0000_0000 {
        assert((qt + 1) * mb <= 0x20_0000_0000 * mb);
    }
    if qt >= 0x4000_0000_0000_0000 {
        assert(qt * mb >= 0x4000_0000_0000_0000 * mb);
    }
}

impl Binary32 {
    /// Divides the scalar by `rhs`.
    pub fn div(self, rhs: Binary32) -> (r: Binary32)
        ensures
            r == self.spec_div(rhs),
            !r.is_nan() ==> r.sign() == (self.sign() != rhs.sign()),
    {
        let negative: bool = self.sign_bit() != rhs.sign_bit();
        let a: u32 = self.ordinal_bits();
        let b: u32 = rhs.ordinal_bits();
        if a > INFINITY_ORDINAL || b > INFINITY_ORDINAL {
            return Self::quiet_nan();
        }
        if a == INFINITY_ORDINAL {
            if b == INFINITY_ORDINAL {
                return Self::quiet_nan();
            }
            return Self::assemble(negative, INFINITY_ORDINAL);
        }
        if b == INFINITY_ORDINAL {
            return Self::assemble(negative, 0);
        }
        if b == 0 {
            if a == 0 {
                return Self::quiet_nan();
            }
            return Self::assemble(negative, INFINITY_ORDINAL);
        }
        let ghost p = self.abs_units() * pow2(149);
        let ghost q = rhs.abs_units();
        let (ea, ma) = split_ordinal(a);
        let (eb, mb) = split_ordinal(b);
        proof {
            lemma_pow2_pos(eb as nat);
            assert(q > 0) by (nonlinear_arith)
                requires
                    q == mb * pow2(eb as nat),
                    mb > 0,
                    pow2(eb as nat) > 0,
            ;
        }
        if a == 0 {
            proof {
                lemma_ordinal_landmarks();
                assert(p == 0 && 0 == 0 * q) by (nonlinear_arith)
                    requires
                        p == 0 * pow2(149),
                ;
                lemma_round_exact(p, q, 0);
                lemma_round_ratio_is(p, q, 0);
            }
            return Self::assemble(negative, 0);
        }
        let (man, up) = normalize(ma);
        let num: u64 = man * 0x40_0000_0000;
        let qt: u64 = num / mb;
        let rem: u64 = num % mb;
        let exp: i32 = ea as i32 - up as i32 - 38 - eb as i32 + 149;
        proof {
            lemma2_to64();
            lemma2_to64_rest();
            assert(num == qt * mb + rem) by (nonlinear_arith)
                requires
                    qt == num / mb,
                    rem == num % mb,
                    mb > 0,
            ;
            lemma_quotient_size(num as int, mb as int, qt as int, rem as int);
        }
        let k: u32 = round_sticky(qt, exp, rem != 0);
        proof {
            let grain = pow2((exp + 512 + eb) as nat) as int;
            lemma_pow2_pos(512);
            lemma_quotient_weights(
                ma as int,
                ea as nat,
                mb as int,
                eb as nat,
                up as nat,
                num as int,
                qt as int,
            );
            lemma_quotient_weights(
                ma as int,
                ea as nat,
                mb as int,
                eb as nat,
                up as nat,
                num as int,
                qt + 1,
            );
            if rem == 0 {
                lemma_rounds_to_same_ratio(
                    fraction(qt as int, exp as int),
                    fraction_unit(),
                    p,
                    q,
                    k as nat,
                );
            } else {
                let under = qt * mb;
                let over = (qt + 1) * mb;
                assert(under * grain < num * grain && num * grain < over * grain)
                    by (nonlinear_arith)
                    requires
                        under < num < over,
                        grain > 0,
                ;
                lemma_round_between(
                    fraction(qt as int, exp as int),
                    fraction(qt + 1, exp as int),
                    fraction_unit(),
                    p,
                    q,
                    k as nat,
                );
            }
            lemma_round_ratio_is(p, q, k as nat);
        }
        Self::assemble(negative, k)
    }
}

} // verus!
