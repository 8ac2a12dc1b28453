//! How far a rounded result can lie from the exact one.
//!
//! A finite rounded result `v` of an exact ratio `p / q` is off by at most
//! half a unit in its last place, which is at most `2^-24` of `v` for a
//! normal result and half of 2^-149 for a subnormal one. Both cases are
//! covered by one inequality, `2^24 * |v - p / q| <= v + 2^23`.
use vstd::prelude::*;
use vstd::arithmetic::power2::{lemma2_to64, lemma2_to64_rest, lemma_pow2_pos, pow2};
use crate::powers::{lemma_pow2_ordered, lemma_pow2_product};
use crate::encoding::{
    exponent_of,
    lemma_ordinal_join,
    lemma_ordinal_landmarks,
    lemma_ordinal_monotone,
    lemma_ordinal_split,
    lemma_ordinal_step,
    ordinal_value,
    significand_of,
    INFINITY_ORDINAL,
};
use crate::rounding::{
    lemma_round_ratio_total,
    lemma_round_root_total,
    lower_edge,
    root_rounds_to,
    round_ratio,
    round_root,
    rounds_to,
    upper_edge,
};
use crate::scalar::Binary32;

verus! {

/// `v` is within rounding error of `p / q`:
/// `2^24 * |v * q - p| <= v * q + 2^23 * q`.
pub open spec fn near(v: int, p: int, q: int) -> bool {
    &&& 0 <= v
    &&& 0 <= p
    &&& 0 < q
    &&& 0x100_0000 * (v * q - p) <= v * q + 0x80_0000 * q
    &&& 0x100_0000 * (p - v * q) <= v * q + 0x80_0000 * q
}

/// `v` is within rounding error of the square root of `n`, for a normal `v`:
/// `(1 - 2^-24) * v <= sqrt(n) <= (1 + 2^-24) * v`.
pub open spec fn near_root(v: int, n: int) -> bool {
    &&& 0 < v
    &&& 0 <= n
    &&& 0xffff_fe00_0001 * (v * v) <= 0x1_0000_0000_0000 * n
    &&& 0x1_0000_0000_0000 * n <= 0x1_0000_0200_0001 * (v * v)
}

/// The unit in the last place of an ordinal is at most `2^-23` of its
/// magnitude, or one unit of 2^-149 for a subnormal.
proof fn lemma_ulp_bound(k: nat)
    ensures
        0x80_0000 * pow2(exponent_of(k)) <= ordinal_value(k) + 0x80_0000,
        k >= 0x80_0000 ==> 0x80_0000 * pow2(exponent_of(k)) <= ordinal_value(k),
        pow2(exponent_of(k)) >= 1,
{
    lemma_ordinal_split(k);
    lemma2_to64();
    let e = exponent_of(k);
    let m = significand_of(k) as int;
    let pe = pow2(e) as int;
    lemma_pow2_pos(e);
    if e > 0 || k >= 0x80_0000 {
        assert(0x80_0000 * pe <= m * pe) by (nonlinear_arith)
            requires
                m >= 0x80_0000,
                pe > 0,
        ;
    }
}

/// The two midpoints around a finite ordinal lie within half a unit in the
/// last place of its magnitude.
proof fn lemma_edges_close(k: nat)
    ensures
        upper_edge(k) == 2 * ordinal_value(k) + pow2(exponent_of(k)),
        k > 0 ==> lower_edge(k) >= 2 * ordinal_value(k) - pow2(exponent_of(k)),
        k > 0 ==> lower_edge(k) >= 0,
{
    lemma_ordinal_step(k);
    if k > 0 {
        let j = (k - 1) as nat;
        lemma_ordinal_step(j);
        lemma_ordinal_monotone(j, k);
        lemma_pow2_ordered(exponent_of(j), exponent_of(k));
    }
}

/// A finite rounding of `p / q` is within rounding error of it.
pub proof fn lemma_rounding_error(p: int, q: int, k: nat)
    requires
        p >= 0,
        q > 0,
        k < INFINITY_ORDINAL,
        rounds_to(p, q, k),
    ensures
        near(ordinal_value(k) as int, p, q),
{
    let v = ordinal_value(k) as int;
    let pe = pow2(exponent_of(k)) as int;
    lemma_ulp_bound(k);
    lemma_edges_close(k);
    let u = upper_edge(k);
    assert(0x100_0000 * (p - v * q) <= v * q + 0x80_0000 * q) by (nonlinear_arith)
        requires
            2 * p <= u * q,
            u == 2 * v + pe,
            0x80_0000 * pe <= v + 0x80_0000,
            q > 0,
    {
        assert(u * q == 2 * (v * q) + pe * q);
        assert((0x80_0000 * pe) * q <= (v + 0x80_0000) * q);
    }
    if k > 0 {
        let l = lower_edge(k);
        assert(0x100_0000 * (v * q - p) <= v * q + 0x80_0000 * q) by (nonlinear_arith)
            requires
                l * q <= 2 * p,
                l >= 2 * v - pe,
                0x80_0000 * pe <= v + 0x80_0000,
                q > 0,
        {
            assert((2 * v - pe) * q <= l * q);
            assert((2 * v - pe) * q == 2 * (v * q) - pe * q);
            assert((0x80_0000 * pe) * q <= (v + 0x80_0000) * q);
        }
    } else {
        lemma_ordinal_landmarks();
        assert(v * q == 0) by (nonlinear_arith)
            requires
                v == 0,
        ;
    }
}

/// A finite, normal rounding of the square root of `n` is within rounding
/// error of it.
pub proof fn lemma_root_error(n: int, k: nat)
    requires
        n >= 0,
        0x80_0000 <= k < INFINITY_ORDINAL,
        root_rounds_to(n, k),
    ensures
        near_root(ordinal_value(k) as int, n),
{
    let v = ordinal_value(k) as int;
    let pe = pow2(exponent_of(k)) as int;
    lemma_ulp_bound(k);
    lemma_edges_close(k);
    lemma_ordinal_monotone(0, k);
    let u = upper_edge(k);
    let l = lower_edge(k);
    // 2^23 * u <= (2^24 + 1) * v  and  2^23 * l >= (2^24 - 1) * v
    assert(0x1_0000_0000_0000 * n <= 0x1_0000_0200_0001 * (v * v))
        by (nonlinear_arith)
        requires
            4 * n <= u * u,
            0 <= 0x80_0000 * u <= 0x100_0001 * v,
    {
        assert((0x80_0000 * u) * (0x80_0000 * u) <= (0x100_0001 * v) * (0x100_0001 * v));
        assert((0x80_0000 * u) * (0x80_0000 * u) == 0x4000_0000_0000 * (u * u));
        assert((0x100_0001 * v) * (0x100_0001 * v) == 0x1_0000_0200_0001 * (v * v));
    }
    assert(0xffff_fe00_0001 * (v * v) <= 0x1_0000_0000_0000 * n)
        by (nonlinear_arith)
        requires
            l * l <= 4 * n,
            0 <= 0xff_ffff * v <= 0x80_0000 * l,
    {
        assert((0xff_ffff * v) * (0xff_ffff * v) <= (0x80_0000 * l) * (0x80_0000 * l));
        assert((0x80_0000 * l) * (0x80_0000 * l) == 0x4000_0000_0000 * (l * l));
        assert((0xff_ffff * v) * (0xff_ffff * v) == 0xffff_fe00_0001 * (v * v));
    }
}

/// A ratio below 2^127 does not round to infinity.
pub proof fn lemma_rounds_finite(p: int, q: int, k: nat)
    requires
        q > 0,
        rounds_to(p, q, k),
        2 * p < ordinal_value(INFINITY_ORDINAL as nat) * q,
    ensures
        k < INFINITY_ORDINAL,
{
    if k == INFINITY_ORDINAL {
        let top = ordinal_value(INFINITY_ORDINAL as nat) as int;
        let l = lower_edge(k);
        assert(l >= top);
        assert(l * q >= top * q) by (nonlinear_arith)
            requires
                l >= top,
                q > 0,
        ;
    }
}

/// A value within rounding error of `p / q`, times `q`, is at most
/// `2 p + q`.
pub proof fn lemma_near_size(v: int, p: int, q: int)
    requires
        near(v, p, q),
    ensures
        0 <= v * q <= 2 * p + q,
{
    assert(v * q >= 0) by (nonlinear_arith)
        requires
            v >= 0,
            q > 0,
    ;
}

/// The magnitude of one, 2^149 units, against the landmarks of the format.
pub proof fn lemma_one()
    ensures
        Binary32::spec_one().abs_units() == pow2(149),
        !Binary32::spec_one().sign(),
        pow2(149) >= 0x1_0000_0000_0000,
        64 * pow2(149) < ordinal_value(INFINITY_ORDINAL as nat),
        2048 * pow2(149) < ordinal_value(INFINITY_ORDINAL as nat),
        ordinal_value(0x80_0000) == 0x80_0000,
{
    lemma2_to64();
    lemma2_to64_rest();
    lemma_ordinal_landmarks();
    lemma_ordinal_join(126, 0x80_0000);
    lemma_ordinal_join(0, 0x80_0000);
    lemma_pow2_product(23, 126);
    lemma_pow2_product(48, 101);
    lemma_pow2_product(149, 105);
    lemma_pow2_product(11, 94);
    lemma_pow2_pos(101);
    lemma_pow2_pos(94);
    let p = pow2(149) as int;
    let r = pow2(105) as int;
    assert(pow2(105) == 2048 * pow2(94));
    assert(0x80_0000 * (p * r) > 2048 * p) by (nonlinear_arith)
        requires
            p > 0,
            r >= 2048,
    ;
}

/// What `from_parts` assembles has the sign and ordinal it was given.
pub proof fn lemma_assembled(negative: bool, k: nat)
    requires
        k <= INFINITY_ORDINAL,
    ensures
        Binary32::from_parts(negative, k).sign() == negative,
        Binary32::from_parts(negative, k).ordinal() == k,
{
}

/// An ordinal whose magnitude is at least 2^23 units is at least 2^23.
pub proof fn lemma_normal_ordinal(k: nat)
    requires
        ordinal_value(k) >= 0x80_0000,
    ensures
        k >= 0x80_0000,
{
    if k < 0x80_0000 {
        lemma2_to64();
        lemma_ordinal_join(0, k);
        assert(k * pow2(0) == k) by (nonlinear_arith)
            requires
                pow2(0) == 1,
        ;
    }
}

/// The square of a scalar is finite only if the scalar is; it is then
/// non-negative and within rounding error of the exact square.
pub proof fn lemma_square(x: Binary32)
    requires
        x.spec_mul(x).is_finite(),
    ensures
        x.is_finite(),
        !x.spec_mul(x).sign(),
        near(x.spec_mul(x).abs_units(), x.abs_units() * x.abs_units(), pow2(149) as int),
{
    let xx = x.abs_units() * x.abs_units();
    let p = pow2(149) as int;
    lemma_pow2_pos(149);
    assert(xx >= 0) by (nonlinear_arith)
        requires
            xx == x.abs_units() * x.abs_units(),
    ;
    lemma_round_ratio_total(xx, p);
    let k = round_ratio(xx, p);
    lemma_assembled(false, k);
    lemma_rounding_error(xx, p, k);
}

/// A finite sum has finite operands.
pub proof fn lemma_sum_operands_finite(a: Binary32, b: Binary32)
    requires
        a.spec_add(b).is_finite(),
    ensures
        a.is_finite(),
        b.is_finite(),
{
}

/// The sum of two non-negative scalars is finite only if both are; it is
/// then non-negative and within rounding error of the exact sum.
pub proof fn lemma_sum(a: Binary32, b: Binary32)
    requires
        a.spec_add(b).is_finite(),
        a.is_finite() ==> !a.sign(),
        b.is_finite() ==> !b.sign(),
    ensures
        a.is_finite(),
        b.is_finite(),
        !a.spec_add(b).sign(),
        near(a.spec_add(b).abs_units(), a.abs_units() + b.abs_units(), 1),
{
    let total = a.abs_units() + b.abs_units();
    lemma_ordinal_landmarks();
    if total != 0 {
        lemma_round_ratio_total(total, 1);
        let k = round_ratio(total, 1);
        lemma_assembled(false, k);
        lemma_rounding_error(total, 1, k);
    }
}

/// The root of a normal, non-negative scalar is normal, non-negative and
/// within rounding error of the exact root.
pub proof fn lemma_root(l: Binary32)
    requires
        0x80_0000 <= l.ordinal() < INFINITY_ORDINAL,
        !l.sign(),
    ensures
        !l.spec_sqrt().sign(),
        0 < l.spec_sqrt().ordinal() < INFINITY_ORDINAL,
        near_root(l.spec_sqrt().abs_units(), l.abs_units() * pow2(149)),
{
    let lv = l.abs_units();
    let p = pow2(149) as int;
    let n = lv * p;
    lemma_one();
    lemma2_to64();
    if l.ordinal() > 0x80_0000 {
        lemma_ordinal_monotone(0x80_0000, l.ordinal());
    }
    lemma_ordinal_monotone(l.ordinal(), INFINITY_ORDINAL as nat);
    let top = ordinal_value(INFINITY_ORDINAL as nat) as int;
    assert(lv >= 0x80_0000);
    assert(n >= 0x80_0000 * p && n < top * p) by (nonlinear_arith)
        requires
            n == lv * p,
            0x80_0000 <= lv < top,
            p > 0,
    ;
    lemma_round_root_total(n);
    let k = round_root(n);
    if k < 0x80_0000 {
        // the root of at least 2^172 is not subnormal
        lemma_ordinal_join(0, k);
        lemma_ordinal_step(k);
        let u = upper_edge(k);
        assert(u <= 0x100_0000);
        assert(u * u <= 0x1_0000_0000_0000) by (nonlinear_arith)
            requires
                0 <= u <= 0x100_0000,
        ;
    }
    if k == INFINITY_ORDINAL {
        // the root of less than 2^426 is below 2^128
        let e = lower_edge(k);
        assert(e >= top);
        assert(e * e >= top * top && top * top > 4 * (top * p)) by (nonlinear_arith)
            requires
                e >= top,
                top > 64 * p,
                p > 0,
        ;
    }
    lemma_assembled(false, k);
    lemma_root_error(n, k);
}

/// The product of two finite scalars whose exact product is below 2^127 is
/// finite and within rounding error of the exact product of the magnitudes.
pub proof fn lemma_finite_product(x: Binary32, y: Binary32)
    requires
        x.is_finite(),
        y.is_finite(),
        2 * (x.abs_units() * y.abs_units()) < ordinal_value(INFINITY_ORDINAL as nat) * pow2(149),
    ensures
        x.spec_mul(y).is_finite(),
        x.spec_mul(y).sign() == (x.sign() != y.sign()),
        near(x.spec_mul(y).abs_units(), x.abs_units() * y.abs_units(), pow2(149) as int),
{
    let xy = x.abs_units() * y.abs_units();
    let p = pow2(149) as int;
    lemma_pow2_pos(149);
    assert(xy >= 0) by (nonlinear_arith)
        requires
            xy == x.abs_units() * y.abs_units(),
            x.abs_units() >= 0,
            y.abs_units() >= 0,
    ;
    lemma_round_ratio_total(xy, p);
    let k = round_ratio(xy, p);
    lemma_rounds_finite(xy, p, k);
    lemma_assembled(x.sign() != y.sign(), k);
    lemma_rounding_error(xy, p, k);
}

/// The sum of two finite non-negative scalars whose exact sum is below
/// 2^127 is finite.
pub proof fn lemma_finite_sum(a: Binary32, b: Binary32)
    requires
        a.is_finite(),
        b.is_finite(),
        !a.sign(),
        !b.sign(),
        2 * (a.abs_units() + b.abs_units()) < ordinal_value(INFINITY_ORDINAL as nat),
    ensures
        a.spec_add(b).is_finite(),
{
    let total = a.abs_units() + b.abs_units();
    lemma_ordinal_landmarks();
    if total != 0 {
        lemma_round_ratio_total(total, 1);
        let k = round_ratio(total, 1);
        lemma_rounds_finite(total, 1, k);
        lemma_assembled(false, k);
    }
}

/// The rounded quotient of a finite non-negative scalar by a finite
/// positive one, when the exact quotient is below 2^127: it is finite, not
/// negative, and within rounding error of the exact quotient.
pub proof fn lemma_finite_quotient(x: Binary32, m: Binary32)
    requires
        x.is_finite() && !x.sign(),
        m.is_finite() && !m.sign(),
        m.abs_units() > 0,
        2 * (x.abs_units() * pow2(149)) < ordinal_value(INFINITY_ORDINAL as nat) * m.abs_units(),
    ensures
        x.spec_div(m).is_finite(),
        !x.spec_div(m).sign(),
        near(x.spec_div(m).abs_units(), x.abs_units() * pow2(149), m.abs_units()),
{
    let xv = x.abs_units();
    let mv = m.abs_units();
    let p = pow2(149) as int;
    lemma_pow2_pos(149);
    lemma_ordinal_landmarks();
    assert(0 <= xv * p) by (nonlinear_arith)
        requires
            0 <= xv,
            p > 0,
    ;
    lemma_round_ratio_total(xv * p, mv);
    let k = round_ratio(xv * p, mv);
    lemma_rounds_finite(xv * p, mv, k);
    lemma_assembled(false, k);
    lemma_rounding_error(xv * p, mv, k);
}

} // verus!
