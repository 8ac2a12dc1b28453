//! When a vector counts as having no length.
//!
//! The guards of normalization, rescaling and projection test a computed
//! length against zero. A computed squared length is zero exactly when each
//! component's square rounds to zero, that is, when each component is at
//! most 2^-75 in magnitude; the zero vector is only one such vector.
use vstd::prelude::*;
use vstd::arithmetic::power2::{lemma2_to64, lemma_pow2_pos, pow2};
use crate::encoding::{lemma_ordinal_landmarks, lemma_ordinal_monotone, ordinal_value};
use crate::rounding::{
    lemma_round_ratio_is,
    lemma_round_ratio_total,
    lemma_round_root_total,
    round_ratio,
    round_root,
    rounds_to,
    upper_edge,
};
use crate::scalar::Binary32;
use crate::vector3::Vector3;
use crate::accuracy::lemma_assembled;

verus! {

/// The square of the scalar is at most half of 2^-149, so that it rounds to
/// zero: the scalar is at most 2^-75 in magnitude.
pub open spec fn square_vanishes(x: Binary32) -> bool {
    2 * (x.abs_units() * x.abs_units()) <= pow2(149)
}

/// The first ordinal above zero is one unit, so the midpoint above zero is
/// half a unit.
proof fn lemma_first_edge()
    ensures
        upper_edge(0) == 1,
        ordinal_value(0) == 0,
{
    lemma2_to64();
    lemma_ordinal_landmarks();
}

/// A magnitude is zero only for the ordinal zero.
proof fn lemma_zero_magnitude(k: nat)
    ensures
        ordinal_value(k) == 0 <==> k == 0,
{
    lemma_ordinal_landmarks();
    if k > 0 {
        lemma_ordinal_monotone(0, k);
    }
}

/// The square of a finite scalar is zero exactly when it vanishes; it is
/// never negative and never NaN.
proof fn lemma_square_is_zero(x: Binary32)
    requires
        x.is_finite(),
    ensures
        x.spec_mul(x).is_zero() <==> square_vanishes(x),
        !x.spec_mul(x).sign(),
        !x.spec_mul(x).is_nan(),
{
    let xx = x.abs_units() * x.abs_units();
    let p = pow2(149) as int;
    lemma_pow2_pos(149);
    lemma_first_edge();
    assert(xx >= 0) by (nonlinear_arith)
        requires
            xx == x.abs_units() * x.abs_units(),
    ;
    lemma_round_ratio_total(xx, p);
    let k = round_ratio(xx, p);
    lemma_assembled(false, k);
    assert(upper_edge(0) * p == p) by (nonlinear_arith)
        requires
            upper_edge(0) == 1,
    ;
    if square_vanishes(x) {
        assert(rounds_to(xx, p, 0));
        lemma_round_ratio_is(xx, p, 0);
    }
}

/// The sum of two non-negative scalars, neither a NaN, is zero exactly when
/// both are; it is never negative and never NaN.
proof fn lemma_sum_is_zero(a: Binary32, b: Binary32)
    requires
        !a.is_nan() && !a.sign(),
        !b.is_nan() && !b.sign(),
    ensures
        a.spec_add(b).is_zero() <==> a.is_zero() && b.is_zero(),
        !a.spec_add(b).sign(),
        !a.spec_add(b).is_nan(),
{
    lemma_first_edge();
    lemma_zero_magnitude(a.ordinal());
    lemma_zero_magnitude(b.ordinal());
    if a.is_finite() && b.is_finite() {
        let total = a.abs_units() + b.abs_units();
        if total != 0 {
            lemma_round_ratio_total(total, 1);
            lemma_assembled(false, round_ratio(total, 1));
        }
    }
}

/// The root of a non-negative scalar that is not a NaN is zero exactly when
/// the scalar is; it is never negative and never NaN.
proof fn lemma_root_is_zero(l: Binary32)
    requires
        !l.is_nan() && !l.sign(),
    ensures
        l.spec_sqrt().is_zero() <==> l.is_zero(),
        !l.spec_sqrt().sign(),
        !l.spec_sqrt().is_nan(),
{
    lemma_first_edge();
    lemma_zero_magnitude(l.ordinal());
    if l.is_finite() && !l.is_zero() {
        let p = pow2(149) as int;
        let n = l.abs_units() * p;
        lemma_pow2_pos(149);
        assert(n > 0) by (nonlinear_arith)
            requires
                n == l.abs_units() * p,
                l.abs_units() > 0,
                p > 0,
        ;
        lemma_round_root_total(n);
        lemma_assembled(false, round_root(n));
    }
}

/// For a vector with finite components, the computed squared length is
/// zero exactly when the square of every component vanishes, and the
/// computed length is zero exactly when the squared length is. Otherwise
/// the length is greater than zero.
pub proof fn lemma_length_is_zero(v: Vector3)
    requires
        v.x.is_finite(),
        v.y.is_finite(),
        v.z.is_finite(),
    ensures
        v.spec_length_sq().is_zero() <==> square_vanishes(v.x) && square_vanishes(v.y)
            && square_vanishes(v.z),
        v.spec_magnitude().spec_eq(Binary32::spec_zero()) <==> v.spec_length_sq().is_zero(),
        Binary32::spec_zero().spec_lt(v.spec_magnitude()) <==> !v.spec_length_sq().is_zero(),
        v.spec_length_sq().spec_eq(Binary32::spec_zero()) <==> v.spec_length_sq().is_zero(),
{
    let a = v.x.spec_mul(v.x);
    let b = v.y.spec_mul(v.y);
    let c = v.z.spec_mul(v.z);
    lemma_square_is_zero(v.x);
    lemma_square_is_zero(v.y);
    lemma_square_is_zero(v.z);
    lemma_sum_is_zero(a, b);
    lemma_sum_is_zero(a.spec_add(b), c);
    let l = v.spec_length_sq();
    assert(l == a.spec_add(b).spec_add(c));
    lemma_root_is_zero(l);
    lemma_zero_magnitude(0);
    lemma_zero_magnitude(l.ordinal());
    lemma_zero_magnitude(v.spec_magnitude().ordinal());
}

/// The normalization of a vector with finite components is the zero vector
/// by the degenerate branch exactly when the square of every component
/// vanishes.
pub proof fn lemma_normalized_is_zero(v: Vector3)
    requires
        v.x.is_finite(),
        v.y.is_finite(),
        v.z.is_finite(),
        square_vanishes(v.x) && square_vanishes(v.y) && square_vanishes(v.z),
    ensures
        v.spec_normalized() == Vector3::spec_zero(),
        v.spec_with_length(Binary32::spec_one()) == v,
{
    lemma_length_is_zero(v);
}

} // verus!
