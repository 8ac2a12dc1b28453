//! Addition and subtraction of two scalars.
use vstd::prelude::*;
use vstd::arithmetic::power2::{lemma2_to64, lemma2_to64_rest, lemma_pow2_pos, pow2};
use crate::powers::{lemma_pow2_ordered, lemma_pow2_product, lemma_regroup, lemma_spread};
use crate::encoding::{
    exponent_of,
    lemma_ordinal_landmarks,
    lemma_ordinal_monotone,
    ordinal_value,
    INFINITY_ORDINAL,
};
use crate::rounding::{
    lemma_round_between,
    lemma_round_exact,
    lemma_round_ratio_is,
    lemma_rounds_to_same_ratio,
};
use crate::nearest::{fraction, fraction_unit, power_of_two, round_sticky};
use crate::scalar::{split_ordinal, Binary32};

verus! {

/// Aligning the larger magnitude `ma * 2^ea` to the exponent of the smaller
/// `mb * 2^eb` gives their sum or difference as one fraction.
proof fn lemma_aligned(ma: int, ea: nat, mb: int, eb: nat, sign: int)
    requires
        ea >= eb,
    ensures
        fraction(ma * pow2((ea - eb) as nat) + sign * mb, eb as int) == (ma * pow2(ea) + sign * (mb
            * pow2(eb))) * fraction_unit(),
        ma * pow2(ea) == (ma * pow2((ea - eb) as nat)) * pow2(eb),
        pow2(eb) > 0,
{
    let d = (ea - eb) as nat;
    lemma_pow2_product(d, eb);
    lemma_pow2_product(eb, 512);
    let pd = pow2(d) as int;
    let pa = pow2(ea) as int;
    let pb = pow2(eb) as int;
    let q = fraction_unit();
    let fine = pow2((eb + 512) as nat) as int;
    lemma_spread(ma * pd, sign * mb, pb * q);
    lemma_regroup(ma * pd, pb, q);
    lemma_regroup(sign * mb, pb, q);
    lemma_regroup(ma, pd, pb);
    lemma_regroup(sign, mb, pb);
    lemma_spread(ma * pa, sign * (mb * pb), q);
}

/// When the smaller magnitude is at least 27 binades below the larger, it is
/// less than one eighth of a unit in the last place of the larger.
proof fn lemma_far_apart(ma: int, ea: nat, mb: int, eb: nat)
    requires
        ea >= eb + 27,
        0 < mb < 0x100_0000,
    ensures
        ({
            let big = (ma * pow2(ea)) * fraction_unit();
            let small = (mb * pow2(eb)) * fraction_unit();
            let grain = pow2((ea - 3 + 512) as nat) as int;
            &&& fraction(8 * ma, ea - 3) == big
            &&& fraction(8 * ma + 1, ea - 3) == big + grain
            &&& fraction(8 * ma - 1, ea - 3) == big - grain
            &&& 0 < small < grain
            &&& fraction_unit() > 0
        }),
{
    lemma2_to64();
    let q = fraction_unit();
    let grain = pow2((ea - 3 + 512) as nat) as int;
    let pa = pow2(ea) as int;
    let pb = pow2(eb) as int;
    lemma_pow2_pos(512);
    lemma_pow2_pos(eb);
    lemma_pow2_product(3, (ea - 3 + 512) as nat);
    lemma_pow2_product(ea, 512);
    assert(8 * grain == pa * q);
    assert((8 * ma) * grain == ma * (8 * grain) && (8 * ma + 1) * grain == ma * (8 * grain) + grain
        && (8 * ma - 1) * grain == ma * (8 * grain) - grain) by (nonlinear_arith);
    assert(ma * (pa * q) == (ma * pa) * q) by (nonlinear_arith);
    // mb * 2^eb < 2^(24 + eb) <= 2^(ea - 3)
    lemma_pow2_product(24, eb);
    lemma_pow2_ordered(24 + eb, (ea - 3) as nat);
    lemma_pow2_product((ea - 3) as nat, 512);
    let eighth = pow2((ea - 3) as nat) as int;
    assert(0 < (mb * pb) * q && (mb * pb) * q < eighth * q) by (nonlinear_arith)
        requires
            0 < mb < 0x100_0000,
            0x100_0000 * pb <= eighth,
            pb > 0,
            q > 0,
    ;
}

/// The larger of two magnitudes with equal or different ordinals.
proof fn lemma_ordered_magnitudes(a: nat, b: nat)
    requires
        b <= a,
    ensures
        ordinal_value(b) <= ordinal_value(a),
        exponent_of(b) <= exponent_of(a),
        b < a ==> ordinal_value(b) < ordinal_value(a),
        a > 0 ==> ordinal_value(a) > 0,
        ordinal_value(0) == 0,
{
    lemma_ordinal_landmarks();
    if b < a {
        lemma_ordinal_monotone(b, a);
    }
    if a > 0 {
        lemma_ordinal_monotone(0, a);
    }
}

/// Adds two finite scalars of which the first has the larger magnitude.
fn add_ordered(x: Binary32, y: Binary32) -> (r: Binary32)
    requires
        y.ordinal() <= x.ordinal() < INFINITY_ORDINAL,
    ensures
        r == Binary32::finite_sum(x, y),
        !x.sign() && !y.sign() ==> !r.sign(),
{
    let sa: bool = x.sign_bit();
    let sb: bool = y.sign_bit();
    let a: u32 = x.ordinal_bits();
    let b: u32 = y.ordinal_bits();
    let ghost big = x.abs_units();
    let ghost small = y.abs_units();
    proof {
        lemma_ordered_magnitudes(a as nat, b as nat);
    }
    if b == 0 {
        if a == 0 {
            return Binary32::assemble(sa && sb, 0);
        }
        proof {
            lemma_round_exact(big, 1, a as nat);
            lemma_round_ratio_is(big, 1, a as nat);
        }
        return Binary32::assemble(sa, a);
    }
    if sa != sb && a == b {
        return Binary32::assemble(false, 0);
    }
    let (ea, ma) = split_ordinal(a);
    let (eb, mb) = split_ordinal(b);
    let gap: u32 = ea - eb;
    let ghost exact: int = if sa == sb {
        big + small
    } else {
        big - small
    };
    let sig: u64;
    let exp: i32;
    let sticky: bool;
    if gap <= 37 {
        let scale: u64 = power_of_two(gap);
        proof {
            lemma2_to64();
            lemma2_to64_rest();
            lemma_pow2_ordered(gap as nat, 37);
            assert(ma * scale < 0x2000_0000_0000_0000) by (nonlinear_arith)
                requires
                    ma < 0x100_0000,
                    scale <= 0x20_0000_0000,
            ;
            lemma_aligned(ma as int, ea as nat, mb as int, eb as nat, 1);
            lemma_aligned(ma as int, ea as nat, mb as int, eb as nat, -1);
            let pb = pow2(eb as nat) as int;
            if sa != sb {
                assert(ma * scale > mb) by (nonlinear_arith)
                    requires
                        (ma * scale) * pb > mb * pb,
                        pb > 0,
                ;
            }
        }
        let shifted: u64 = ma * scale;
        sig = if sa == sb {
            shifted + mb
        } else {
            shifted - mb
        };
        exp = eb as i32;
        sticky = false;
    } else {
        sig = if sa == sb {
            8 * ma
        } else {
            8 * ma - 1
        };
        exp = ea as i32 - 3;
        sticky = true;
    }
    let k: u32 = round_sticky(sig, exp, sticky);
    proof {
        lemma_pow2_pos(512);
        let q = fraction_unit();
        assert((big + small) * q == big * q + small * q && (big - small) * q == big * q - small * q)
            by (nonlinear_arith);
        if sticky {
            lemma_far_apart(ma as int, ea as nat, mb as int, eb as nat);
            lemma_round_between(
                fraction(sig as int, exp as int),
                fraction(sig + 1, exp as int),
                fraction_unit(),
                exact,
                1,
                k as nat,
            );
        } else {
            lemma_rounds_to_same_ratio(
                fraction(sig as int, exp as int),
                fraction_unit(),
                exact,
                1,
                k as nat,
            );
        }
        lemma_round_ratio_is(exact, 1, k as nat);
    }
    Binary32::assemble(sa, k)
}

impl Binary32 {
    /// Adds two scalars.
    pub fn add(self, rhs: Binary32) -> (r: Binary32)
        ensures
            r == self.spec_add(rhs),
            !self.sign() && !rhs.sign() ==> r.is_nan() || !r.sign(),
    {
        let a: u32 = self.ordinal_bits();
        let b: u32 = rhs.ordinal_bits();
        if a > INFINITY_ORDINAL || b > INFINITY_ORDINAL {
            return Self::quiet_nan();
        }
        if a == INFINITY_ORDINAL {
            if b == INFINITY_ORDINAL && self.sign_bit() != rhs.sign_bit() {
                return Self::quiet_nan();
            }
            return self;
        }
        if b == INFINITY_ORDINAL {
            return rhs;
        }
        if a >= b {
            add_ordered(self, rhs)
        } else {
            add_ordered(rhs, self)
        }
    }

    /// Subtracts `rhs` from the scalar.
    pub fn sub(self, rhs: Binary32) -> (r: Binary32)
        ensures
            r == self.spec_sub(rhs),
    {
        self.add(rhs.neg())
    }
}

} // verus!
