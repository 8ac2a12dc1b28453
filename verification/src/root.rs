//! Square root of a scalar.
use vstd::prelude::*;
use vstd::arithmetic::power2::{
    lemma2_to64,
    lemma2_to64_rest,
    lemma_pow2_pos,
    lemma_pow2_unfold,
    pow2,
};
use crate::powers::{lemma_pow2_product, lemma_regroup};
use crate::encoding::INFINITY_ORDINAL;
use crate::rounding::{lemma_root_between, lemma_root_exact, lemma_round_root_is};
use crate::nearest::{fraction, fraction_unit, power_of_two, round_sticky};
use crate::scalar::{split_ordinal, Binary32};
use crate::quotient::normalize;

verus! {

/// The largest integer whose square does not exceed `n`.
pub fn integer_sqrt(n: u64) -> (r: u64)
    ensures
        r * r <= n < (r + 1) * (r + 1),
        r < 0x1_0000_0000,
{
    let mut r: u64 = 0;
    let mut bit: u32 = 32;
    proof {
        lemma2_to64();
    }
    while bit > 0
        invariant
            bit <= 32,
            r + pow2(bit as nat) <= 0x1_0000_0000,
            r * r <= n < (r + pow2(bit as nat)) * (r + pow2(bit as nat)),
        decreases bit,
    {
        bit = bit - 1;
        let step: u64 = power_of_two(bit);
        proof {
            lemma_pow2_unfold((bit + 1) as nat);
            lemma_pow2_pos(bit as nat);
        }
        let t: u64 = r + step;
        assert(t * t < 0x1_0000_0000_0000_0000) by (nonlinear_arith)
            requires
                t < 0x1_0000_0000,
        ;
        if t * t <= n {
            r = t;
        }
    }
    proof {
        lemma2_to64();
    }
    r
}

/// The weights that relate the root of a 63-bit integer to the root of the
/// magnitude `ma * 2^ea`, where `half` is half the even exponent left after
/// the integer is taken out.
proof fn lemma_root_weights(ma: int, ea: nat, up: nat, twice: nat, num: int, half: nat, t: int)
    requires
        up <= 23,
        twice <= 1,
        num == ((ma * pow2(up)) * pow2(twice)) * pow2(38),
        ea + 149 == up + twice + 2 * half,
        half >= 19,
    ensures
        ({
            let exp = half - 19;
            let unit = fraction_unit();
            let weight = pow2((2 * exp) as nat) * (unit * unit);
            &&& weight > 0
            &&& fraction(t, exp) * fraction(t, exp) == (t * t) * weight
            &&& ((ma * pow2(ea)) * pow2(149)) * (unit * unit) == num * weight
        }),
{
    let exp = (half - 19) as nat;
    let unit = fraction_unit();
    let fine = pow2(exp + 512) as int;
    let span = pow2(2 * exp) as int;
    let weight = span * (unit * unit);
    lemma_pow2_pos(512);
    lemma_pow2_pos(2 * exp);
    assert(weight > 0) by (nonlinear_arith)
        requires
            weight == span * (unit * unit),
            span > 0,
            unit > 0,
    ;
    // fine^2 == 2^(2 exp) * unit^2
    lemma_pow2_product(exp, 512);
    lemma_pow2_product(exp, exp);
    let pe = pow2(exp) as int;
    assert((pe * unit) * (pe * unit) == (pe * pe) * (unit * unit)) by (nonlinear_arith);
    assert((t * fine) * (t * fine) == (t * t) * (fine * fine)) by (nonlinear_arith);
    // ma * 2^ea * 2^149 == num * 2^(2 exp)
    let pa = pow2(ea) as int;
    let pu = pow2(up) as int;
    let pt = pow2(twice) as int;
    lemma_pow2_product(ea, 149);
    lemma_pow2_product(up, twice);
    lemma_pow2_product(up + twice, 38);
    lemma_pow2_product(up + twice + 38, 2 * exp);
    let whole = pow2(ea + 149) as int;
    lemma_regroup(ma, pa, pow2(149) as int);
    assert((ma * pa) * pow2(149) == ma * whole);
    lemma_regroup(ma, pu, pt);
    lemma_regroup(ma, pu * pt, pow2(38) as int);
    lemma_regroup(ma, (pu * pt) * pow2(38), span);
    assert(num * span == ma * whole);
    lemma_regroup(num, span, unit * unit);
}

/// An integer of at least 61 bits has a root of at least 31 bits, and the
/// root is exact only when its square gives the integer back.
proof fn lemma_root_size(num: int, r: int)
    by (nonlinear_arith)
    requires
        0x2000_0000_0000_0000 <= num,
        0 <= r,
        r * r <= num < (r + 1) * (r + 1),
    ensures
        r >= 0x4000_0000,
{
    if r + 1 <= 0x4000_0000 {
        assert((r + 1) * (r + 1) <= 0x4000_0000 * 0x4000_0000);
    }
}

impl Binary32 {
    /// The square root of the scalar.
    pub fn sqrt(self) -> (r: Binary32)
        ensures
            r == self.spec_sqrt(),
            !self.sign() ==> r.is_nan() || !r.sign(),
    {
        let a: u32 = self.ordinal_bits();
        if a > INFINITY_ORDINAL {
            return Self::quiet_nan();
        }
        if a == 0 {
            return self;
        }
        if self.sign_bit() {
            return Self::quiet_nan();
        }
        if a == INFINITY_ORDINAL {
            return self;
        }
        let ghost n = self.abs_units() * pow2(149);
        let (ea, ma) = split_ordinal(a);
        let (man, up) = normalize(ma);
        let scale: u32 = ea + 149 - up;
        let twice: u32 = scale % 2;
        let doubled: u64 = if twice == 1 {
            2 * man
        } else {
            man
        };
        let half: u32 = (scale - twice) / 2;
        let num: u64 = doubled * 0x40_0000_0000;
        let root: u64 = integer_sqrt(num);
        let sticky: bool = root * root != num;
        let exp: i32 = half as i32 - 19;
        proof {
            lemma2_to64();
            lemma2_to64_rest();
            lemma_root_size(num as int, root as int);
            let pt = pow2(twice as nat) as int;
            assert(pt == if twice == 1 { 2int } else { 1int });
            assert(doubled == man * pt) by (nonlinear_arith)
                requires
                    doubled == if twice == 1 { 2 * man } else { man as int },
                    pt == if twice == 1 { 2int } else { 1int },
            ;
            assert(pow2(38) == 0x40_0000_0000);
        }
        let k: u32 = round_sticky(root, exp, sticky);
        proof {
            let unit = fraction_unit();
            let weight = pow2((2 * exp) as nat) * (unit * unit);
            lemma_pow2_pos(512);
            lemma_root_weights(
                ma as int,
                ea as nat,
                up as nat,
                twice as nat,
                num as int,
                half as nat,
                root as int,
            );
            lemma_root_weights(
                ma as int,
                ea as nat,
                up as nat,
                twice as nat,
                num as int,
                half as nat,
                root + 1,
            );
            let low = fraction(root as int, exp as int);
            let high = fraction(root + 1, exp as int);
            assert(0 <= low && 0 <= high) by (nonlinear_arith)
                requires
                    low == root * pow2((exp + 512) as nat),
                    high == (root + 1) * pow2((exp + 512) as nat),
                    root >= 0,
            ;
            if sticky {
                let under = root * root;
                let over = (root + 1) * (root + 1);
                assert(under * weight < num * weight && num * weight < over * weight)
                    by (nonlinear_arith)
                    requires
                        under < num < over,
                        weight > 0,
                ;
                lemma_root_between(low, high, unit, n, k as nat);
            } else {
                lemma_root_exact(low, unit, n, k as nat);
            }
            lemma_round_root_is(n, k as nat);
        }
        Self::assemble(false, k)
    }
}

} // verus!
